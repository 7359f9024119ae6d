//! Errors that carry a message, and the diagnostic messages of the toolbox.

use crate::decimal::{decimal, decimal_string, parse_usize, parsed_usize};
use crate::letters::{bytes_of, views};
use crate::occurrence::{is_last_occurrence, last_occurrence, lemma_last_occurrence, rfind_bytes};
use crate::rux_texts::{entry_views, is_equals, is_truthy, truthy};
use vstd::prelude::*;
use vstd::string::StringExecFns;

verus! {

/// An error that is nothing but its message.
#[derive(Clone, Debug, PartialEq, Eq)]
pub struct MessageErr {
    body: String,
}

impl View for MessageErr {
    type V = Seq<char>;

    closed spec fn view(&self) -> Seq<char> {
        self.body@
    }
}

impl MessageErr {
    /// The error whose message is `s`.
    #[inline]
    pub fn of(s: String) -> (err: MessageErr)
        ensures
            err@ == s@,
    {
        MessageErr { body: s }
    }

    /// The error whose message is a copy of `s`.
    #[inline]
    pub fn new(s: &str) -> (err: MessageErr)
        ensures
            err@ == s@,
    {
        MessageErr { body: String::from_str(s) }
    }

    /// The error that reports `cause`, the text of another error.
    #[inline]
    pub fn from(cause: &str) -> (err: MessageErr)
        ensures
            err@ == cause@,
    {
        MessageErr { body: String::from_str(cause) }
    }

    /// The error that reports `s`, then a comma and a space, then `cause`,
    /// the text of another error.
    #[inline]
    pub fn with(s: &str, cause: &str) -> (err: MessageErr)
        ensures
            err@ == s@ + ", "@ + cause@,
    {
        let mut body = String::from_str(s);
        body.append(", ");
        body.append(cause);
        MessageErr { body }
    }

    /// The message.
    #[inline]
    pub fn as_str(&self) -> (s: &str)
        ensures
            s@ == self@,
    {
        self.body.as_str()
    }
}

/// A boxed error with the given message.
pub fn wrong(message: String) -> (err: Box<MessageErr>)
    ensures
        err@ == message@,
{
    Box::new(MessageErr::of(message))
}

/// A boxed error with the given message, ready to be returned as a failure.
pub fn throw(message: String) -> (err: Box<MessageErr>)
    ensures
        err@ == message@,
{
    Box::new(MessageErr::of(message))
}

/// The switches of the diagnostic sink, and the messages it has taken in
/// that wait to be written out.
pub struct Debugger {
    /// Whether messages go to the console.
    pub verbose: bool,
    /// Whether messages go to the archive file.
    pub archive: bool,
    /// Whether each written line starts with the time.
    pub dbg_time: bool,
    /// How much the debug messages tell: calls from 1, returns from 2, steps
    /// from 3, everything from 4.
    pub dbg_size: usize,
    /// The messages taken in and not yet written out, oldest first.
    pub journal: Vec<String>,
}

/// A diagnostic sink as a mathematical value.
pub struct Sink {
    pub verbose: bool,
    pub archive: bool,
    pub dbg_time: bool,
    pub dbg_size: nat,
    pub journal: Seq<Seq<char>>,
}

impl View for Debugger {
    type V = Sink;

    open spec fn view(&self) -> Sink {
        Sink {
            verbose: self.verbose,
            archive: self.archive,
            dbg_time: self.dbg_time,
            dbg_size: self.dbg_size as nat,
            journal: views(self.journal@),
        }
    }
}

impl Sink {
    /// The sink a program starts with: every switch off, debug messages for
    /// calls only, nothing taken in.
    pub open spec fn initial() -> Sink {
        Sink { verbose: false, archive: false, dbg_time: false, dbg_size: 1, journal: seq![] }
    }

    /// Whether the sink takes messages in at all.
    pub open spec fn listens(self) -> bool {
        self.verbose || self.archive
    }

    /// The sink after `message` was handed to it: a sink that listens keeps
    /// the message, another drops it.
    pub open spec fn noted(self, message: Seq<char>) -> Sink {
        if self.listens() {
            Sink { journal: self.journal.push(message), ..self }
        } else {
            self
        }
    }

    /// The sink after a debug message of the given weight was handed to it:
    /// the message counts only where `dbg_size` reaches the weight.
    pub open spec fn noted_from(self, weight: nat, message: Seq<char>) -> Sink {
        if self.dbg_size >= weight {
            self.noted(message)
        } else {
            self
        }
    }

    /// The sink after the console was switched on or off. Switching it on
    /// hands the sink a notice, which it keeps, as it listens by then.
    pub open spec fn verbose_set(self, verbose: bool) -> Sink {
        let set = Sink { verbose, ..self };
        if verbose {
            set.noted(verbose_notice())
        } else {
            set
        }
    }

    /// The sink after the archive was switched on or off. Switching it on
    /// hands the sink a notice, which it keeps, as it listens by then.
    pub open spec fn archive_set(self, archive: bool) -> Sink {
        let set = Sink { archive, ..self };
        if archive {
            set.noted(archive_notice())
        } else {
            set
        }
    }

    /// The sink after one entry of a setup was applied, or nothing where the
    /// entry sets `dbgsize` to what is no number.
    pub open spec fn applied(self, key: Seq<char>, value: Seq<char>) -> Option<Sink> {
        if key == "verbose"@ {
            Some(self.verbose_set(truthy(value)))
        } else if key == "archive"@ {
            Some(self.archive_set(truthy(value)))
        } else if key == "dbgtime"@ {
            Some(Sink { dbg_time: truthy(value), ..self })
        } else if key == "dbgsize"@ {
            match parsed_usize(value) {
                Some(size) => Some(Sink { dbg_size: size, ..self }),
                None => None,
            }
        } else if key == "debug-calls"@ {
            Some(
                if truthy(value) {
                    Sink { dbg_size: 1, ..self }
                } else {
                    self
                },
            )
        } else if key == "debug-reavs"@ {
            Some(
                if truthy(value) {
                    Sink { dbg_size: 2, ..self }
                } else {
                    self
                },
            )
        } else if key == "debug-steps"@ {
            Some(
                if truthy(value) {
                    Sink { dbg_size: 3, ..self }
                } else {
                    self
                },
            )
        } else if key == "debug-tells"@ {
            Some(
                if truthy(value) {
                    Sink { dbg_size: 4, ..self }
                } else {
                    self
                },
            )
        } else {
            Some(self)
        }
    }

    /// The sink after the entries of a setup were applied one after another,
    /// together with the number of entries applied: all of them, or those
    /// before the first that sets `dbgsize` to what is no number.
    pub open spec fn configured(self, entries: Seq<(Seq<char>, Seq<char>)>) -> (Sink, nat)
        decreases entries.len(),
    {
        if entries.len() == 0 {
            (self, 0)
        } else {
            let (sink, count) = self.configured(entries.drop_last());
            if count < entries.len() - 1 {
                (sink, count)
            } else {
                match sink.applied(entries.last().0, entries.last().1) {
                    Some(next) => (next, count + 1),
                    None => (sink, count),
                }
            }
        }
    }
}

impl Debugger {
    /// The sink a program starts with.
    pub fn new() -> (state: Debugger)
        ensures
            state@ == Sink::initial(),
    {
        let state = Debugger {
            verbose: false,
            archive: false,
            dbg_time: false,
            dbg_size: 1,
            journal: Vec::new(),
        };
        assert(state@.journal =~= Seq::<Seq<char>>::empty());
        state
    }

    /// Hands out the messages taken in, oldest first, and leaves none
    /// behind.
    pub fn drain(&mut self) -> (messages: Vec<String>)
        ensures
            views(messages@) == old(self)@.journal,
            final(self)@ == (Sink { journal: seq![], ..old(self)@ }),
    {
        let mut messages: Vec<String> = Vec::new();
        messages.append(&mut self.journal);
        assert(views(messages@) =~= old(self)@.journal);
        assert(views(self.journal@) =~= Seq::<Seq<char>>::empty());
        messages
    }
}

/// Applies the entries of a setup, keys with their values, one after another.
/// The keys `verbose`, `archive` and `dbgtime` set their switch to whether
/// the value is truthy, the first two with the notice that `set_verbose` and
/// `set_archive` make when they switch on; `dbgsize` sets the debug size to the number that the
/// value writes; `debug-calls`, `debug-reavs`, `debug-steps` and
/// `debug-tells` set the debug size to 1, 2, 3 and 4 where their value is
/// truthy; any other key changes nothing. An entry that sets `dbgsize` to
/// what is no number ends the setup with an error; the entries before it
/// stay applied.
pub fn setup(state: &mut Debugger, entries: &Vec<(String, String)>) -> (done: Result<
    (),
    Box<MessageErr>,
>)
    ensures
        final(state)@ == old(state)@.configured(entry_views(entries@)).0,
        done is Ok <==> old(state)@.configured(entry_views(entries@)).1 == entries@.len(),
{
    let ghost all = entry_views(entries@);
    let ghost start = state@;
    let mut i: usize = 0;
    while i < entries.len()
        invariant
            i <= entries@.len(),
            all == entry_views(entries@),
            start == old(state)@,
            start.configured(all.take(i as int)) == (state@, i as nat),
        decreases entries@.len() - i,
    {
        let key = entries[i].0.as_str();
        let value = entries[i].1.as_str();
        proof {
            let seen = all.take(i + 1);
            assert(seen.drop_last() =~= all.take(i as int));
            assert(seen.last() == (key@, value@));
        }
        if is_equals(key, "verbose") {
            set_verbose(state, is_truthy(value));
        } else if is_equals(key, "archive") {
            set_archive(state, is_truthy(value));
        } else if is_equals(key, "dbgtime") {
            set_dbg_time(state, is_truthy(value));
        } else if is_equals(key, "dbgsize") {
            match parse_usize(value) {
                Some(size) => set_dbg_size(state, size),
                None => {
                    proof {
                        let seen = all.take(i + 1);
                        assert(start.configured(seen.drop_last()) == (state@, i as nat));
                        assert(state@.applied(key@, value@) is None);
                        assert(start.configured(seen) == (state@, i as nat));
                        lemma_configured_stops(start, all, i as int);
                    }
                    return Err(throw(String::from_str("Could not parse the debug size.")));
                },
            }
        } else if is_equals(key, "debug-calls") {
            if is_truthy(value) {
                put_dbg_calls(state);
            }
        } else if is_equals(key, "debug-reavs") {
            if is_truthy(value) {
                put_dbg_reavs(state);
            }
        } else if is_equals(key, "debug-steps") {
            if is_truthy(value) {
                put_dbg_steps(state);
            }
        } else if is_equals(key, "debug-tells") {
            if is_truthy(value) {
                put_dbg_tells(state);
            }
        }
        i += 1;
    }
    proof {
        assert(all.take(i as int) =~= all);
    }
    Ok(())
}

/// Once an entry has ended a setup, the entries after it change nothing.
proof fn lemma_configured_stops(start: Sink, entries: Seq<(Seq<char>, Seq<char>)>, at: int)
    requires
        0 <= at < entries.len(),
        start.configured(entries.take(at + 1)).1 == at,
    ensures
        start.configured(entries) == start.configured(entries.take(at + 1)),
    decreases entries.len(),
{
    if at + 1 == entries.len() {
        assert(entries.take(at + 1) =~= entries);
    } else {
        assert(entries.drop_last().take(at + 1) =~= entries.take(at + 1));
        lemma_configured_stops(start, entries.drop_last(), at);
    }
}

/// Whether messages go to the console.
pub fn is_verbose(state: &Debugger) -> (verbose: bool)
    ensures
        verbose == state@.verbose,
{
    state.verbose
}

/// The line of this file on which `set_verbose` makes its notice.
pub const VERBOSE_NOTICE_LINE: u32 = 436;

/// The line of this file on which `set_archive` makes its notice.
pub const ARCHIVE_NOTICE_LINE: u32 = 471;

/// The notice that the console was switched on, with the place where it is
/// made.
pub open spec fn verbose_notice() -> Seq<char> {
    message_of(
        "INFO"@,
        "src/rux_debug.rs"@,
        VERBOSE_NOTICE_LINE as nat,
        "rubx::rux_debug::set_verbose"@,
        seq![],
        "Verbose started"@,
    )
}

/// The notice that the archive was switched on, with the place where it is
/// made.
pub open spec fn archive_notice() -> Seq<char> {
    message_of(
        "INFO"@,
        "src/rux_debug.rs"@,
        ARCHIVE_NOTICE_LINE as nat,
        "rubx::rux_debug::set_archive"@,
        seq![],
        "Archive started"@,
    )
}

/// Sends messages to the console, or stops sending them there. Switching
/// the console on is told to the sink by a notice.
pub fn set_verbose(state: &mut Debugger, verbose: bool)
    ensures
        final(state)@ == old(state)@.verbose_set(verbose),
{
    state.verbose = verbose;
    if is_verbose(state) {
        let _ = debug_info(
            state,
            "src/rux_debug.rs",
            VERBOSE_NOTICE_LINE,
            "rubx::rux_debug::set_verbose",
            String::new(),
            "Verbose started",
        );
    }
}

/// Sends messages to the console.
pub fn put_verbose(state: &mut Debugger)
    ensures
        final(state)@ == old(state)@.verbose_set(true),
{
    set_verbose(state, true);
}

/// Whether messages go to the archive file.
pub fn is_archive(state: &Debugger) -> (archive: bool)
    ensures
        archive == state@.archive,
{
    state.archive
}

/// Sends messages to the archive file, or stops sending them there.
/// Switching the archive on is told to the sink by a notice.
pub fn set_archive(state: &mut Debugger, archive: bool)
    ensures
        final(state)@ == old(state)@.archive_set(archive),
{
    state.archive = archive;
    if is_archive(state) {
        let _ = debug_info(
            state,
            "src/rux_debug.rs",
            ARCHIVE_NOTICE_LINE,
            "rubx::rux_debug::set_archive",
            String::new(),
            "Archive started",
        );
    }
}

/// Sends messages to the archive file.
pub fn put_archive(state: &mut Debugger)
    ensures
        final(state)@ == old(state)@.archive_set(true),
{
    set_archive(state, true);
}

/// Whether each written line starts with the time.
pub fn is_dbg_time(state: &Debugger) -> (time: bool)
    ensures
        time == state@.dbg_time,
{
    state.dbg_time
}

/// Starts each written line with the time, or stops doing so.
pub fn set_dbg_time(state: &mut Debugger, time: bool)
    ensures
        final(state)@ == (Sink { dbg_time: time, ..old(state)@ }),
{
    state.dbg_time = time;
}

/// Starts each written line with the time.
pub fn put_dbg_time(state: &mut Debugger)
    ensures
        final(state)@ == (Sink { dbg_time: true, ..old(state)@ }),
{
    set_dbg_time(state, true);
}

/// How much the debug messages tell.
pub fn get_dbg_size(state: &Debugger) -> (size: usize)
    ensures
        size == state@.dbg_size,
{
    state.dbg_size
}

/// Sets how much the debug messages tell.
pub fn set_dbg_size(state: &mut Debugger, size: usize)
    ensures
        final(state)@ == (Sink { dbg_size: size as nat, ..old(state)@ }),
{
    state.dbg_size = size;
}

/// Lets the debug messages tell of calls only.
pub fn put_dbg_calls(state: &mut Debugger)
    ensures
        final(state)@ == (Sink { dbg_size: 1, ..old(state)@ }),
{
    set_dbg_size(state, 1)
}

/// Lets the debug messages tell of calls and returns.
pub fn put_dbg_reavs(state: &mut Debugger)
    ensures
        final(state)@ == (Sink { dbg_size: 2, ..old(state)@ }),
{
    set_dbg_size(state, 2)
}

/// Lets the debug messages tell of calls, returns and steps.
pub fn put_dbg_steps(state: &mut Debugger)
    ensures
        final(state)@ == (Sink { dbg_size: 3, ..old(state)@ }),
{
    set_dbg_size(state, 3)
}

/// Lets the debug messages tell everything.
pub fn put_dbg_tells(state: &mut Debugger)
    ensures
        final(state)@ == (Sink { dbg_size: 4, ..old(state)@ }),
{
    set_dbg_size(state, 4)
}

/// Sends messages to the console and lets the debug messages tell
/// everything.
pub fn put_dbg_verbose_tells(state: &mut Debugger)
    ensures
        final(state)@ == (Sink { dbg_size: 4, ..old(state)@.verbose_set(true) }),
{
    put_verbose(state);
    put_dbg_tells(state);
}

/// Hands a message to the sink, which keeps it for writing out if it
/// listens.
pub fn debug(state: &mut Debugger, message: &str)
    ensures
        final(state)@ == old(state)@.noted(message@),
{
    if state.verbose || state.archive {
        let ghost before = views(state.journal@);
        state.journal.push(String::from_str(message));
        assert(views(state.journal@) =~= before.push(message@));
    }
}

/// The line that is written out for a message: the time, where there is
/// one, then a hyphen between spaces; the thread between bars; a space; and
/// the message.
pub open spec fn written_line(stamp: Option<Seq<char>>, thread: Seq<char>, message: Seq<char>) -> Seq<
    char,
> {
    match stamp {
        Some(time) => time + " - |"@ + thread + "| "@ + message,
        None => "|"@ + thread + "| "@ + message,
    }
}

/// Forms the line that is written out for a message.
pub fn debug_line(stamp: Option<&str>, thread: &str, message: &str) -> (line: String)
    ensures
        line@ == written_line(
            match stamp {
                Some(time) => Some(time@),
                None => None,
            },
            thread@,
            message@,
        ),
{
    let mut line = match stamp {
        Some(time) => {
            let mut line = String::from_str(time);
            line.append(" - |");
            line
        },
        None => String::from_str("|"),
    };
    line.append(thread);
    line.append("| ");
    line.append(message);
    line
}

/// The text of a message of some kind: the kind in square brackets, the
/// function in round brackets, the place as file, colon and line number in
/// square brackets, then the message itself and, where there are any, the
/// values in braces after `as`.
pub open spec fn message_of(
    kind: Seq<char>,
    file: Seq<char>,
    line: nat,
    func: Seq<char>,
    vals: Seq<char>,
    msg: Seq<char>,
) -> Seq<char> {
    let head = "["@ + kind + "] on ("@ + func + ") in ["@ + file + ":"@ + decimal(line) + "] "@
        + msg;
    if vals.len() == 0 {
        head
    } else {
        head + " as { "@ + vals + " }"@
    }
}

/// The text of a debug message: the kind in square brackets, the sort of
/// event in angle brackets, the function in round brackets, the place in
/// square brackets, and the values in braces after `as`.
pub open spec fn message_in(
    kind: Seq<char>,
    sub: Seq<char>,
    file: Seq<char>,
    line: nat,
    func: Seq<char>,
    vals: Seq<char>,
) -> Seq<char> {
    "["@ + kind + "] <"@ + sub + "> on ("@ + func + ") in ["@ + file + ":"@ + decimal(line)
        + "] as { "@ + vals + " }"@
}

/// Forms a message of the given kind, hands it to the sink and returns it.
pub fn debug_of(
    state: &mut Debugger,
    kind: &str,
    file: &str,
    line: u32,
    func: &str,
    vals: String,
    msg: &str,
) -> (message: String)
    ensures
        message@ == message_of(kind@, file@, line as nat, func@, vals@, msg@),
        final(state)@ == old(state)@.noted(message@),
{
    let mut message = String::from_str("[");
    message.append(kind);
    message.append("] on (");
    message.append(func);
    message.append(") in [");
    message.append(file);
    message.append(":");
    message.append(decimal_string(line as usize).as_str());
    message.append("] ");
    message.append(msg);
    if !vals.as_str().is_empty() {
        message.append(" as { ");
        message.append(vals.as_str());
        message.append(" }");
    }
    debug(state, message.as_str());
    message
}

/// Forms a debug message, hands it to the sink and returns it.
pub fn debug_in(
    state: &mut Debugger,
    kind: &str,
    sub: &str,
    file: &str,
    line: u32,
    func: &str,
    vals: String,
) -> (message: String)
    ensures
        message@ == message_in(kind@, sub@, file@, line as nat, func@, vals@),
        final(state)@ == old(state)@.noted(message@),
{
    let mut message = String::from_str("[");
    message.append(kind);
    message.append("] <");
    message.append(sub);
    message.append("> on (");
    message.append(func);
    message.append(") in [");
    message.append(file);
    message.append(":");
    message.append(decimal_string(line as usize).as_str());
    message.append("] as { ");
    message.append(vals.as_str());
    message.append(" }");
    debug(state, message.as_str());
    message
}

/// Hands an `INFO` message to the sink and returns it.
pub fn debug_info(state: &mut Debugger, file: &str, line: u32, func: &str, vals: String, err: &str) -> (message:
    String)
    ensures
        message@ == message_of("INFO"@, file@, line as nat, func@, vals@, err@),
        final(state)@ == old(state)@.noted(message@),
{
    debug_of(state, "INFO", file, line, func, vals, err)
}

/// Hands a `WARN` message to the sink and returns it.
pub fn debug_warn(state: &mut Debugger, file: &str, line: u32, func: &str, vals: String, err: &str) -> (message:
    String)
    ensures
        message@ == message_of("WARN"@, file@, line as nat, func@, vals@, err@),
        final(state)@ == old(state)@.noted(message@),
{
    debug_of(state, "WARN", file, line, func, vals, err)
}

/// Where an error that passes through came from: the text of the error from
/// the last ` on (` on, without that space and the word `on`, or nothing
/// where the error holds no ` on (`.
pub open spec fn origin_of(err: Seq<char>) -> Seq<char> {
    match last_occurrence(bytes_of(err), bytes_of(" on ("@)) {
        Some(at) => vstd::utf8::decode_utf8(
            bytes_of(err).subrange(at + 4, bytes_of(err).len() as int),
        ),
        None => seq![],
    }
}

/// Where an error that passes through came from.
pub fn origin(err: &str) -> (from: &str)
    ensures
        from@ == origin_of(err@),
{
    let word = " on (";
    proof {
        reveal_strlit(" on (");
        vstd::utf8::is_ascii_chars_encode_utf8(word@);
        lemma_last_occurrence(bytes_of(err@), bytes_of(word@));
    }
    let total = err.as_bytes().len();
    let found = rfind_bytes(err.as_bytes(), word.as_bytes());
    match found {
        Some(at) => {
            let ghost bytes = bytes_of(err@);
            proof {
                assert(is_last_occurrence(bytes, bytes_of(word@), at as int));
                assert(bytes_of(word@).len() == 5);
                assert(bytes_of(word@)[4] == 40u8);
                assert(bytes.subrange(at as int, at + 5)[4] == bytes[at + 4]);
                assert(vstd::utf8::is_leading_byte_width_1(bytes[at + 4]));
                vstd::utf8::encode_utf8_valid_utf8(err@);
                vstd::utf8::is_char_boundary_iff_is_leading_byte(bytes, at + 4);
            }
            let (_, from) = err.split_at(at + 4);
            proof {
                vstd::utf8::encode_utf8_decode_utf8(from@);
            }
            from
        },
        None => {
            proof {
                reveal_strlit("");
            }
            let from = "";
            assert(from@ =~= Seq::<char>::empty());
            from
        },
    }
}

/// Hands an `ERRO` message to the sink that says where an error came from,
/// and passes the error on unchanged.
pub fn debug_bleb(
    state: &mut Debugger,
    file: &str,
    line: u32,
    func: &str,
    vals: String,
    err: Box<MessageErr>,
) -> (same: Box<MessageErr>)
    ensures
        same == err,
        final(state)@ == old(state)@.noted(
            message_of(
                "ERRO"@,
                file@,
                line as nat,
                func@,
                vals@,
                "<BLEB> from "@ + origin_of(err@),
            ),
        ),
{
    let mut from = String::from_str("<BLEB> from ");
    from.append(origin(err.as_str()));
    let _ = debug_of(state, "ERRO", file, line, func, vals, from.as_str());
    err
}

/// Makes an error of an `ERRO` message and hands the message to the sink.
pub fn debug_erro(state: &mut Debugger, file: &str, line: u32, func: &str, vals: String, err: &str) -> (error:
    Box<MessageErr>)
    ensures
        error@ == message_of("ERRO"@, file@, line as nat, func@, vals@, err@),
        final(state)@ == old(state)@.noted(error@),
{
    throw(debug_of(state, "ERRO", file, line, func, vals, err))
}

/// Hands an `ERRO` message to the sink and returns it.
pub fn debug_errs(state: &mut Debugger, file: &str, line: u32, func: &str, vals: String, err: &str) -> (message:
    String)
    ensures
        message@ == message_of("ERRO"@, file@, line as nat, func@, vals@, err@),
        final(state)@ == old(state)@.noted(message@),
{
    debug_of(state, "ERRO", file, line, func, vals, err)
}

/// Makes an error of a message of the given kind and hands the message to
/// the sink.
pub fn debug_jolt(
    state: &mut Debugger,
    kind: &str,
    file: &str,
    line: u32,
    func: &str,
    vals: String,
    err: &str,
) -> (error: Box<MessageErr>)
    ensures
        error@ == message_of(kind@, file@, line as nat, func@, vals@, err@),
        final(state)@ == old(state)@.noted(error@),
{
    throw(debug_of(state, kind, file, line, func, vals, err))
}

/// Hands a message of the given kind to the sink and returns it.
pub fn debug_kind(
    state: &mut Debugger,
    kind: &str,
    file: &str,
    line: u32,
    func: &str,
    vals: String,
    err: &str,
) -> (message: String)
    ensures
        message@ == message_of(kind@, file@, line as nat, func@, vals@, err@),
        final(state)@ == old(state)@.noted(message@),
{
    debug_of(state, kind, file, line, func, vals, err)
}

/// Tells of a call, where the debug size is 1 or more.
pub fn debug_call(state: &mut Debugger, file: &str, line: u32, func: &str, vals: String)
    ensures
        final(state)@ == old(state)@.noted_from(
            1,
            message_in("DBUG"@, "CALL"@, file@, line as nat, func@, vals@),
        ),
{
    if get_dbg_size(state) >= 1 {
        let _ = debug_in(state, "DBUG", "CALL", file, line, func, vals);
    }
}

/// Tells of a return, where the debug size is 2 or more.
pub fn debug_reav(state: &mut Debugger, file: &str, line: u32, func: &str, vals: String)
    ensures
        final(state)@ == old(state)@.noted_from(
            2,
            message_in("DBUG"@, "REAV"@, file@, line as nat, func@, vals@),
        ),
{
    if get_dbg_size(state) >= 2 {
        let _ = debug_in(state, "DBUG", "REAV", file, line, func, vals);
    }
}

/// Tells of a step, where the debug size is 3 or more.
pub fn debug_step(state: &mut Debugger, file: &str, line: u32, func: &str, vals: String)
    ensures
        final(state)@ == old(state)@.noted_from(
            3,
            message_in("DBUG"@, "STEP"@, file@, line as nat, func@, vals@),
        ),
{
    if get_dbg_size(state) >= 3 {
        let _ = debug_in(state, "DBUG", "STEP", file, line, func, vals);
    }
}

/// Tells of a value that was bound, where the debug size is 3 or more.
pub fn debug_lets(state: &mut Debugger, file: &str, line: u32, func: &str, what: &str, lets: String)
    ensures
        final(state)@ == old(state)@.noted_from(
            3,
            message_in(
                "DBUG"@,
                "LETS"@,
                file@,
                line as nat,
                func@,
                "lets "@ + what@ + " = "@ + lets@,
            ),
        ),
{
    if get_dbg_size(state) >= 3 {
        let mut vals = String::from_str("lets ");
        vals.append(what);
        vals.append(" = ");
        vals.append(lets.as_str());
        let _ = debug_in(state, "DBUG", "LETS", file, line, func, vals);
    }
}

/// Tells of a value that was assigned, where the debug size is 3 or more.
pub fn debug_muts(state: &mut Debugger, file: &str, line: u32, func: &str, what: &str, muts: String)
    ensures
        final(state)@ == old(state)@.noted_from(
            3,
            message_in(
                "DBUG"@,
                "MUTS"@,
                file@,
                line as nat,
                func@,
                "muts "@ + what@ + " = "@ + muts@,
            ),
        ),
{
    if get_dbg_size(state) >= 3 {
        let mut vals = String::from_str("muts ");
        vals.append(what);
        vals.append(" = ");
        vals.append(muts.as_str());
        let _ = debug_in(state, "DBUG", "MUTS", file, line, func, vals);
    }
}

/// Tells of a condition that was tested, where the debug size is 4 or more.
pub fn debug_ifis(state: &mut Debugger, file: &str, line: u32, func: &str, what: &str, ifis: String)
    ensures
        final(state)@ == old(state)@.noted_from(
            4,
            message_in(
                "DBUG"@,
                "IFIS"@,
                file@,
                line as nat,
                func@,
                "if is "@ + what@ + " = "@ + ifis@,
            ),
        ),
{
    if get_dbg_size(state) >= 4 {
        let mut vals = String::from_str("if is ");
        vals.append(what);
        vals.append(" = ");
        vals.append(ifis.as_str());
        let _ = debug_in(state, "DBUG", "IFIS", file, line, func, vals);
    }
}

/// Tells of anything else, where the debug size is 4 or more.
pub fn debug_tell(state: &mut Debugger, file: &str, line: u32, func: &str, vals: String)
    ensures
        final(state)@ == old(state)@.noted_from(
            4,
            message_in("DBUG"@, "TELL"@, file@, line as nat, func@, vals@),
        ),
{
    if get_dbg_size(state) >= 4 {
        let _ = debug_in(state, "DBUG", "TELL", file, line, func, vals);
    }
}

} // verus!
