use vstd::prelude::*;
use crate::text::same_text;

verus! {

/// Errors of the device protocol.
#[derive(Debug, PartialEq, Eq, Structural)]
pub enum DeviceError {
    /// A command was attempted before the device showed its prompt.
    NotConnected,
    /// The device answered with something that could not be understood.
    ProtocolError,
    /// The device's signature matches no known device.
    UnknownDevice,
}

/// The command that asks the device for its signature.
pub const VERSION_QUERY: &'static str = "ver";

/// The command that asks the device for its configuration.
pub const CONFIG_QUERY: &'static str = "show";

/// The command that restores the device's factory settings.
pub const FACTORY_RESET: &'static str = "fac";

/// Characters that `char::is_whitespace` accepts.
pub open spec fn is_space(c: char) -> bool {
    c == '\t' || c == '\n' || c == '\x0b' || c == '\x0c' || c == '\r' || c == ' ' || c == '\u{85}'
        || c == '\u{a0}' || c == '\u{1680}' || ('\u{2000}' <= c && c <= '\u{200a}') || c
        == '\u{2028}' || c == '\u{2029}' || c == '\u{202f}' || c == '\u{205f}' || c == '\u{3000}'
}

pub open spec fn trim_start(s: Seq<char>) -> Seq<char>
    decreases s.len(),
{
    if s.len() > 0 && is_space(s[0]) {
        trim_start(s.drop_first())
    } else {
        s
    }
}

pub open spec fn trim_end(s: Seq<char>) -> Seq<char>
    decreases s.len(),
{
    if s.len() > 0 && is_space(s.last()) {
        trim_end(s.drop_last())
    } else {
        s
    }
}

/// `s` without leading and trailing white space.
pub open spec fn trim(s: Seq<char>) -> Seq<char> {
    trim_end(trim_start(s))
}

/// The pieces of `s` between newline characters.
pub open spec fn split_lines(s: Seq<char>) -> Seq<Seq<char>>
    decreases s.len(),
{
    if s.len() == 0 {
        seq![Seq::empty()]
    } else {
        let init = split_lines(s.drop_last());
        if s.last() == '\n' {
            init.push(Seq::empty())
        } else {
            init.update(init.len() - 1, init.last().push(s.last()))
        }
    }
}

/// The trimmed lines that are not empty, in order.
pub open spec fn nonempty_trimmed(ls: Seq<Seq<char>>) -> Seq<Seq<char>>
    decreases ls.len(),
{
    if ls.len() == 0 {
        Seq::empty()
    } else {
        let r = nonempty_trimmed(ls.drop_last());
        if trim(ls.last()).len() == 0 {
            r
        } else {
            r.push(trim(ls.last()))
        }
    }
}

/// `ls` without the first line equal to `x`, if there is one.
pub open spec fn remove_first(ls: Seq<Seq<char>>, x: Seq<char>) -> Seq<Seq<char>>
    decreases ls.len(),
{
    if ls.len() == 0 {
        ls
    } else if ls[0] == x {
        ls.drop_first()
    } else {
        seq![ls[0]].add(remove_first(ls.drop_first(), x))
    }
}

/// The line by which the device shows that it waits for a command.
pub open spec fn prompt_line() -> Seq<char> {
    seq!['>']
}

/// The line by which the device reports that a command succeeded.
pub open spec fn ok_line() -> Seq<char> {
    seq!['[', 'O', 'K', ']']
}

/// The lines of a response to `cmd`, without empty lines and the command's echo.
pub open spec fn response_body(resp: Seq<char>, cmd: Seq<char>) -> Seq<Seq<char>> {
    remove_first(nonempty_trimmed(split_lines(resp)), cmd)
}

/// Whether the response to `cmd` ends the device's turn with its prompt.
pub open spec fn response_has_prompt(resp: Seq<char>, cmd: Seq<char>) -> bool {
    response_body(resp, cmd).contains(prompt_line())
}

/// The lines handed back for a response to `cmd`: the body without the prompt line.
pub open spec fn response_lines(resp: Seq<char>, cmd: Seq<char>) -> Seq<Seq<char>> {
    remove_first(response_body(resp, cmd), prompt_line())
}

/// Whether the response to `cmd` reports success.
pub open spec fn response_ok(resp: Seq<char>, cmd: Seq<char>) -> bool {
    response_lines(resp, cmd).contains(ok_line())
}

pub open spec fn views(v: Seq<String>) -> Seq<Seq<char>> {
    v.map_values(|l: String| l@)
}

proof fn lemma_remove_first_at(ls: Seq<Seq<char>>, x: Seq<char>, k: int)
    requires
        0 <= k < ls.len(),
        ls[k] == x,
        forall|j: int| 0 <= j < k ==> ls[j] != x,
    ensures
        remove_first(ls, x) == ls.remove(k),
    decreases k,
{
    if k == 0 {
        assert(ls.drop_first() =~= ls.remove(0));
    } else {
        let t = ls.drop_first();
        assert forall|j: int| 0 <= j < k - 1 implies t[j] != x by {
            assert(t[j] == ls[j + 1]);
        }
        lemma_remove_first_at(t, x, k - 1);
        assert(seq![ls[0]].add(t.remove(k - 1)) =~= ls.remove(k));
    }
}

proof fn lemma_remove_first_absent(ls: Seq<Seq<char>>, x: Seq<char>)
    requires
        !ls.contains(x),
    ensures
        remove_first(ls, x) == ls,
    decreases ls.len(),
{
    if ls.len() > 0 {
        let t = ls.drop_first();
        assert(!t.contains(x)) by {
            if t.contains(x) {
                let j = choose|j: int| 0 <= j < t.len() && t[j] == x;
                assert(ls[j + 1] == x);
            }
        }
        lemma_remove_first_absent(t, x);
        assert(seq![ls[0]].add(t) =~= ls);
    }
}

proof fn lemma_remove_first_len(ls: Seq<Seq<char>>, x: Seq<char>)
    ensures
        remove_first(ls, x).len() == ls.len() - (if ls.contains(x) { 1int } else { 0int }),
    decreases ls.len(),
{
    if ls.len() > 0 {
        let t = ls.drop_first();
        lemma_remove_first_len(t, x);
        if ls[0] != x {
            assert(ls.contains(x) == t.contains(x)) by {
                if ls.contains(x) {
                    let j = choose|j: int| 0 <= j < ls.len() && ls[j] == x;
                    assert(t[j - 1] == x);
                }
                if t.contains(x) {
                    let j = choose|j: int| 0 <= j < t.len() && t[j] == x;
                    assert(ls[j + 1] == x);
                }
            }
        } else {
            assert(ls[0] == x);
        }
    }
}

/// A response loses exactly one echo of the command where it holds one, and
/// exactly one prompt line where what remains holds one; it reports success
/// exactly when a line `[OK]` is left among the lines handed back.
pub proof fn lemma_response_strips_one(resp: Seq<char>, cmd: Seq<char>)
    ensures
        ({
            let c = nonempty_trimmed(split_lines(resp));
            &&& response_body(resp, cmd).len() == c.len() - (if c.contains(cmd) { 1int } else { 0int })
            &&& response_lines(resp, cmd).len() == response_body(resp, cmd).len() - (if response_has_prompt(resp, cmd) { 1int } else { 0int })
            &&& response_ok(resp, cmd) == response_lines(resp, cmd).contains(ok_line())
        }),
{
    lemma_remove_first_len(nonempty_trimmed(split_lines(resp)), cmd);
    lemma_remove_first_len(response_body(resp, cmd), prompt_line());
}

fn is_space_char(c: char) -> (r: bool)
    ensures
        r == is_space(c),
{
    c == '\t' || c == '\n' || c == '\x0b' || c == '\x0c' || c == '\r' || c == ' ' || c == '\u{85}'
        || c == '\u{a0}' || c == '\u{1680}' || ('\u{2000}' <= c && c <= '\u{200a}') || c
        == '\u{2028}' || c == '\u{2029}' || c == '\u{202f}' || c == '\u{205f}' || c == '\u{3000}'
}

/// Bounds of the trimmed part of `s[st..en]`.
fn trim_bounds(s: &str, st: usize, en: usize) -> (r: (usize, usize))
    requires
        st <= en <= s@.len(),
    ensures
        st <= r.0 <= r.1 <= en,
        s@.subrange(r.0 as int, r.1 as int) == trim(s@.subrange(st as int, en as int)),
{
    let mut lo = st;
    while lo < en && is_space_char(s.get_char(lo))
        invariant
            st <= lo <= en <= s@.len(),
            trim_start(s@.subrange(st as int, en as int)) == trim_start(s@.subrange(lo as int, en as int)),
        decreases en - lo,
    {
        assert(s@.subrange(lo as int, en as int).drop_first() =~= s@.subrange(lo + 1, en as int));
        lo = lo + 1;
    }
    let mut hi = en;
    assert(trim_start(s@.subrange(lo as int, en as int)) == s@.subrange(lo as int, en as int));
    while hi > lo && is_space_char(s.get_char(hi - 1))
        invariant
            st <= lo <= hi <= en <= s@.len(),
            trim_end(s@.subrange(lo as int, en as int)) == trim_end(s@.subrange(lo as int, hi as int)),
        decreases hi - lo,
    {
        assert(s@.subrange(lo as int, hi as int).drop_last() =~= s@.subrange(lo as int, hi - 1));
        hi = hi - 1;
    }
    assert(trim_end(s@.subrange(lo as int, hi as int)) == s@.subrange(lo as int, hi as int));
    (lo, hi)
}

/// The trimmed, non-empty lines of `resp`, in order.
fn clean_lines(resp: &str) -> (r: Vec<String>)
    ensures
        views(r@) == nonempty_trimmed(split_lines(resp@)),
{
    let n = resp.unicode_len();
    let mut out: Vec<String> = Vec::new();
    let mut st: usize = 0;
    let mut i: usize = 0;
    let ghost mut done: Seq<Seq<char>> = Seq::empty();
    assert(resp@.take(0) =~= Seq::<char>::empty());
    assert(resp@.subrange(0, 0) =~= Seq::<char>::empty());
    while i < n
        invariant
            n == resp@.len(),
            st <= i <= n,
            split_lines(resp@.take(i as int)) == done.push(resp@.subrange(st as int, i as int)),
            views(out@) == nonempty_trimmed(done),
        decreases n - i,
    {
        let c = resp.get_char(i);
        assert(resp@.take(i + 1).drop_last() =~= resp@.take(i as int));
        assert(resp@.take(i + 1).last() == c);
        if c == '\n' {
            let (lo, hi) = trim_bounds(resp, st, i);
            let line = Ghost(resp@.subrange(st as int, i as int));
            assert(done.push(line@).drop_last() =~= done);
            if lo < hi {
                let piece = String::from_str(resp.substring_char(lo, hi));
                let ghost before = out@;
                out.push(piece);
                assert(views(out@) =~= views(before).push(piece@));
            }
            proof {
                done = done.push(line@);
            }
            st = i + 1;
            assert(resp@.subrange(st as int, i + 1) =~= Seq::<char>::empty());
        } else {
            assert(resp@.subrange(st as int, i + 1) =~= resp@.subrange(st as int, i as int).push(c));
            assert(done.push(resp@.subrange(st as int, i as int)).update(done.len() as int, resp@.subrange(st as int, i + 1)) =~= done.push(resp@.subrange(st as int, i + 1)));
        }
        i = i + 1;
    }
    assert(resp@.take(n as int) =~= resp@);
    let (lo, hi) = trim_bounds(resp, st, n);
    let line = Ghost(resp@.subrange(st as int, n as int));
    assert(done.push(line@).drop_last() =~= done);
    if lo < hi {
        let piece = String::from_str(resp.substring_char(lo, hi));
        let ghost before = out@;
        out.push(piece);
        assert(views(out@) =~= views(before).push(piece@));
    }
    out
}

/// Position of the first line equal to `x`.
fn find_line(lines: &Vec<String>, x: &str) -> (r: Option<usize>)
    ensures
        match r {
            Some(k) => k < lines@.len() && views(lines@)[k as int] == x@ && forall|j: int|
                0 <= j < k ==> views(lines@)[j] != x@,
            None => !views(lines@).contains(x@),
        },
{
    let mut k: usize = 0;
    while k < lines.len()
        invariant
            k <= lines@.len(),
            forall|j: int| 0 <= j < k ==> views(lines@)[j] != x@,
        decreases lines@.len() - k,
    {
        if same_text(lines[k].as_str(), x) {
            return Some(k);
        }
        k = k + 1;
    }
    proof {
        if views(lines@).contains(x@) {
            let j = choose|j: int| 0 <= j < views(lines@).len() && views(lines@)[j] == x@;
            assert(views(lines@)[j] != x@);
        }
    }
    None
}

/// Removes the first line equal to `x`; tells whether there was one.
fn remove_line(lines: &mut Vec<String>, x: &str) -> (r: bool)
    ensures
        views(final(lines)@) == remove_first(views(old(lines)@), x@),
        r == views(old(lines)@).contains(x@),
{
    match find_line(lines, x) {
        Some(k) => {
            proof {
                lemma_remove_first_at(views(lines@), x@, k as int);
            }
            let ghost before = lines@;
            lines.remove(k);
            assert(views(lines@) =~= views(before).remove(k as int));
            true
        },
        None => {
            proof {
                lemma_remove_first_absent(views(lines@), x@);
            }
            false
        },
    }
}

/// The state of a prompt-framed command channel. The serial link itself is
/// driven by the caller: this type decides what to write and reads what came back.
pub struct BorosSerial {
    found_prompt: bool,
    after_newline: bool,
}

impl BorosSerial {
    /// Whether the device has shown its prompt since the last exchange.
    pub closed spec fn prompt_seen(&self) -> bool {
        self.found_prompt
    }

    /// Whether the last boot byte read was a newline.
    pub closed spec fn awaits_prompt_byte(&self) -> bool {
        self.after_newline
    }

    /// A channel that has not seen a prompt.
    pub fn new() -> (r: Self)
        ensures
            !r.prompt_seen(),
            !r.awaits_prompt_byte(),
    {
        BorosSerial { found_prompt: false, after_newline: false }
    }

    /// Starts the wait for the boot prompt after a reset of the device.
    pub fn connect(&mut self)
        ensures
            !final(self).prompt_seen(),
            !final(self).awaits_prompt_byte(),
    {
        self.found_prompt = false;
        self.after_newline = false;
    }

    /// Takes one byte of the device's boot output; a newline followed by `>`
    /// is the prompt. Tells whether the prompt has been seen.
    pub fn wait_prompt(&mut self, b: u8) -> (r: bool)
        ensures
            final(self).prompt_seen() == (old(self).prompt_seen() || (old(self).awaits_prompt_byte()
                && b == 62)),
            final(self).awaits_prompt_byte() == (b == 10),
            r == final(self).prompt_seen(),
    {
        if self.after_newline && b == 62u8 {
            self.found_prompt = true;
        }
        self.after_newline = b == 10u8;
        self.found_prompt
    }

    /// Whether the device is ready for a command.
    pub fn is_ready(&self) -> (r: bool)
        ensures
            r == self.prompt_seen(),
    {
        self.found_prompt
    }

    /// Starts the exchange of `cmd`: the text to write to the device, the
    /// command and a newline. Without a prompt seen nothing is to be written.
    pub fn do_cmd(&mut self, cmd: &str) -> (r: Result<String, DeviceError>)
        ensures
            !old(self).prompt_seen() ==> r == Err::<String, DeviceError>(DeviceError::NotConnected)
                && *final(self) == *old(self),
            old(self).prompt_seen() ==> r is Ok && r->Ok_0@ == cmd@ + seq!['\n']
                && !final(self).prompt_seen(),
    {
        if !self.found_prompt {
            return Err(DeviceError::NotConnected);
        }
        self.found_prompt = false;
        proof {
            reveal_strlit("\n");
        }
        let mut out = String::from_str(cmd);
        out.append("\n");
        Ok(out)
    }

    /// Ends the exchange of `cmd` with the text `resp` that the device sent:
    /// whether it reported success, and its lines without empty ones, the
    /// command's echo and the prompt line. The prompt is seen again where the
    /// response holds it.
    pub fn take_response(&mut self, cmd: &str, resp: &str) -> (r: (bool, Vec<String>))
        ensures
            final(self).prompt_seen() == response_has_prompt(resp@, cmd@),
            final(self).awaits_prompt_byte() == old(self).awaits_prompt_byte(),
            views(r.1@) == response_lines(resp@, cmd@),
            r.0 == response_ok(resp@, cmd@),
    {
        let mut lines = clean_lines(resp);
        remove_line(&mut lines, cmd);
        proof {
            reveal_strlit(">");
            reveal_strlit("[OK]");
            assert(">"@ =~= prompt_line());
            assert("[OK]"@ =~= ok_line());
        }
        self.found_prompt = remove_line(&mut lines, ">");
        let ok = match find_line(&lines, "[OK]") {
            Some(_) => true,
            None => false,
        };
        (ok, lines)
    }
}

} // verus!
