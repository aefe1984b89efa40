//! Reading a streamed chat completion as it passes through the `/v1` proxy: server-sent events
//! arrive in chunks that need not end at a line, so lines are cut from a carried remainder; each
//! `data: ` line is an event, `[DONE]` ends the stream; the tally measures what the user saw.
use vstd::prelude::*;
use crate::gguf::{lossy_utf8, utf8_lossy};
use crate::state::is_ws;
use crate::text::{chars_of, string_of, starts_with, starts_with_at};

verus! {

/// A line without the carriage returns that end it.
pub open spec fn trim_cr(l: Seq<char>) -> Seq<char>
    decreases l.len(),
{
    if l.len() > 0 && l.last() == '\r' { trim_cr(l.drop_last()) } else { l }
}

/// Reading one more character: a newline completes the current line.
pub open spec fn step(st: (Seq<Seq<char>>, Seq<char>), c: char) -> (Seq<Seq<char>>, Seq<char>) {
    if c == '\n' { (st.0.push(trim_cr(st.1)), Seq::empty()) } else { (st.0, st.1.push(c)) }
}

/// The lines completed and the remainder, after reading `s` from state `st`.
pub open spec fn scan(st: (Seq<Seq<char>>, Seq<char>), s: Seq<char>) -> (Seq<Seq<char>>, Seq<char>)
    decreases s.len(),
{
    if s.len() == 0 { st } else { step(scan(st, s.drop_last()), s.last()) }
}

/// Cuts a text stream into lines, whatever its chunks.
pub struct LineSplitter {
    carry: Vec<char>,
}

impl View for LineSplitter {
    type V = Seq<char>;

    /// The text after the last newline read so far.
    closed spec fn view(&self) -> Seq<char> {
        self.carry@
    }
}

/// The first `e` characters of `v`, without trailing carriage returns: the end.
fn trimmed_end(v: &Vec<char>) -> (e: usize)
    ensures
        e <= v@.len(),
        v@.subrange(0, e as int) == trim_cr(v@),
{
    let mut e = v.len();
    assert(v@.subrange(0, e as int) =~= v@);
    while e > 0 && v[e - 1] == '\r'
        invariant
            e <= v@.len(),
            trim_cr(v@.subrange(0, e as int)) == trim_cr(v@),
        decreases e,
    {
        assert(v@.subrange(0, e as int).drop_last() =~= v@.subrange(0, e - 1));
        e = e - 1;
    }
    e
}

impl LineSplitter {
    /// Nothing read yet.
    pub fn new() -> (r: LineSplitter)
        ensures
            r@ == Seq::<char>::empty(),
    {
        LineSplitter { carry: Vec::new() }
    }

    /// Reads `chunk`: the lines it completes (carriage returns at their ends removed), in order;
    /// what follows the last newline is kept for the next chunk.
    pub fn feed(&mut self, chunk: &str) -> (lines: Vec<String>)
        ensures
            (lines@.map_values(|l: String| l@), final(self)@) == scan((Seq::empty(), old(self)@), chunk@),
    {
        let cs = chars_of(chunk);
        let ghost st0 = (Seq::<Seq<char>>::empty(), old(self)@);
        let mut lines: Vec<String> = Vec::new();
        let mut cur = Vec::new();
        std::mem::swap(&mut cur, &mut self.carry);
        let mut i: usize = 0;
        assert(cs@.subrange(0, 0) =~= Seq::<char>::empty());
        assert(lines@.map_values(|l: String| l@) =~= Seq::<Seq<char>>::empty());
        while i < cs.len()
            invariant
                i <= cs@.len(),
                cs@ == chunk@,
                (lines@.map_values(|l: String| l@), cur@) == scan(st0, cs@.subrange(0, i as int)),
            decreases cs@.len() - i,
        {
            let ghost pre = cs@.subrange(0, i + 1);
            assert(pre.drop_last() =~= cs@.subrange(0, i as int));
            assert(pre.last() == cs@[i as int]);
            let c = cs[i];
            if c == '\n' {
                let e = trimmed_end(&cur);
                let l = string_of(cur.as_slice(), 0, e);
                let ghost old_lines = lines@;
                lines.push(l);
                assert(lines@.map_values(|l: String| l@) =~= old_lines.map_values(|l: String| l@).push(trim_cr(cur@)));
                cur = Vec::new();
            } else {
                cur.push(c);
            }
            i = i + 1;
        }
        assert(cs@.subrange(0, cs@.len() as int) =~= cs@);
        self.carry = cur;
        lines
    }

    /// Reads a chunk of bytes as text (invalid UTF-8 replaced, chunk by chunk), as [`feed`](Self::feed).
    pub fn feed_bytes(&mut self, chunk: &[u8]) -> (lines: Vec<String>)
        ensures
            (lines@.map_values(|l: String| l@), final(self)@) == scan((Seq::empty(), old(self)@), lossy_utf8(chunk@)),
    {
        let t = utf8_lossy(chunk);
        self.feed(t.as_str())
    }
}

/// Reading in two parts reads the same lines, and leaves the same remainder, as reading at once.
proof fn lemma_scan_concat(st: (Seq<Seq<char>>, Seq<char>), a: Seq<char>, b: Seq<char>)
    ensures
        scan(st, a + b) == scan(scan(st, a), b),
    decreases b.len(),
{
    if b.len() == 0 {
        assert(a + b =~= a);
    } else {
        lemma_scan_concat(st, a, b.drop_last());
        assert((a + b).drop_last() =~= a + b.drop_last());
        assert((a + b).last() == b.last());
    }
}

/// Lines read from a carried remainder are those completed after it.
proof fn lemma_scan_lines(ls: Seq<Seq<char>>, cur: Seq<char>, s: Seq<char>)
    ensures
        scan((ls, cur), s).0 == ls + scan((Seq::empty(), cur), s).0,
        scan((ls, cur), s).1 == scan((Seq::empty(), cur), s).1,
    decreases s.len(),
{
    if s.len() == 0 {
        assert(ls + Seq::<Seq<char>>::empty() =~= ls);
    } else {
        lemma_scan_lines(ls, cur, s.drop_last());
        let p = scan((Seq::<Seq<char>>::empty(), cur), s.drop_last());
        if s.last() == '\n' {
            assert((ls + p.0).push(trim_cr(p.1)) =~= ls + p.0.push(trim_cr(p.1)));
        }
    }
}

/// Chunking does not matter: feeding `a` and then `b` yields the lines that feeding `a + b` yields,
/// in the same order, and keeps the same remainder.
pub proof fn law_chunking_does_not_matter(carry: Seq<char>, a: Seq<char>, b: Seq<char>)
    ensures
        ({
            let (l1, r1) = scan((Seq::empty(), carry), a);
            let (l2, r2) = scan((Seq::empty(), r1), b);
            let (l, r) = scan((Seq::empty(), carry), a + b);
            l == l1 + l2 && r == r2
        }),
{
    let e = Seq::<Seq<char>>::empty();
    lemma_scan_concat((e, carry), a, b);
    let (l1, r1) = scan((e, carry), a);
    lemma_scan_lines(l1, r1, b);
}

/// What follows `data: ` on an event line.
pub open spec fn payload_spec(line: Seq<char>) -> Option<Seq<char>> {
    if starts_with(line, "data: "@) { Some(line.subrange(6, line.len() as int)) } else { None }
}

/// What follows `data: ` on an event line (see [`payload_spec`]).
pub fn data_payload(line: &str) -> (r: Option<String>)
    ensures
        match r {
            Some(p) => payload_spec(line@) == Some(p@),
            None => payload_spec(line@) is None,
        },
{
    let cs = chars_of(line);
    let pre = chars_of("data: ");
    proof {
        reveal_strlit("data: ");
    }
    if starts_with_at(cs.as_slice(), 0, pre.as_slice()) {
        proof {
            assert(cs@.subrange(0, 6) =~= "data: "@);
        }
        Some(string_of(cs.as_slice(), 6, cs.len()))
    } else {
        proof {
            if starts_with(cs@, "data: "@) {
                assert(cs@.subrange(0, 6) =~= cs@.subrange(0, 0 + pre@.len() as int));
                assert(crate::text::occurs_at(cs@, pre@, 0));
            }
        }
        None
    }
}

/// A text without white space at either end.
pub open spec fn trim_spec(s: Seq<char>) -> Seq<char> {
    let a = first_non_ws(s, 0);
    let b = last_non_ws_end(s, s.len() as int);
    if a < b { s.subrange(a, b) } else { Seq::empty() }
}

/// The first index at or after `i` that is not white space (or the length).
pub open spec fn first_non_ws(s: Seq<char>, i: int) -> int
    decreases s.len() - i,
{
    if 0 <= i < s.len() && is_ws(s[i]) { first_non_ws(s, i + 1) } else { i }
}

/// The end of `s[..e]` without white space at its end.
pub open spec fn last_non_ws_end(s: Seq<char>, e: int) -> int
    decreases e,
{
    if 0 < e <= s.len() && is_ws(s[e - 1]) { last_non_ws_end(s, e - 1) } else { e }
}

/// Whether an event payload is the end-of-stream marker `[DONE]` (white space around it allowed).
pub fn is_done_marker(payload: &str) -> (r: bool)
    ensures
        r == (trim_spec(payload@) == "[DONE]"@),
{
    let cs = chars_of(payload);
    let n = cs.len();
    let mut a: usize = 0;
    while a < n && crate::state::is_ws_exec(cs[a])
        invariant
            a <= n,
            n == cs@.len(),
            first_non_ws(cs@, a as int) == first_non_ws(cs@, 0),
        decreases n - a,
    {
        a = a + 1;
    }
    let mut b: usize = n;
    while b > 0 && crate::state::is_ws_exec(cs[b - 1])
        invariant
            b <= n,
            n == cs@.len(),
            last_non_ws_end(cs@, b as int) == last_non_ws_end(cs@, n as int),
        decreases b,
    {
        b = b - 1;
    }
    proof {
        reveal_strlit("[DONE]");
    }
    let done = chars_of("[DONE]");
    if a < b {
        let ok = b - a == done.len() && starts_with_at(cs.as_slice(), a, done.as_slice());
        proof {
            if ok {
                assert(cs@.subrange(a as int, b as int) =~= done@);
            } else if cs@.subrange(a as int, b as int) == "[DONE]"@ {
                assert(cs@.subrange(a as int, a + done@.len()) =~= done@);
                assert(crate::text::occurs_at(cs@, done@, a as int));
            }
        }
        ok
    } else {
        proof {
            assert("[DONE]"@.len() == 6);
        }
        false
    }
}

/// What one streamed event says, as far as the tally reads it.
#[derive(Debug, Clone, Copy)]
pub struct EventFacts {
    /// The event carries a piece of the answer (content, reasoning or completion text).
    pub has_text: bool,
    /// The event reports usage: its prompt tokens (0 when absent) and its completion tokens.
    pub usage: Option<(u64, Option<u64>)>,
}

/// What the proxy has seen of one streamed answer.
#[derive(Debug, Clone, Copy)]
pub struct Tally {
    /// When the first non-blank bytes arrived, in ms since the request was sent.
    pub first_ms: Option<u64>,
    pub tokens: u32,
    pub prompt_tokens: u32,
    pub done: bool,
}

/// A finished streamed answer: time to first token, total time and token counts.
#[derive(Debug, Clone, Copy, PartialEq, Eq)]
pub struct Finished {
    pub ttft_ms: u64,
    pub total_ms: u64,
    pub tokens: u32,
    pub prompt_tokens: u32,
}

/// Whether some byte is not ASCII white space.
pub open spec fn has_non_blank(bytes: Seq<u8>) -> bool {
    exists|i: int| 0 <= i < bytes.len() && !(bytes[i] == 32 || bytes[i] == 9 || bytes[i] == 10 || bytes[i] == 12 || bytes[i] == 13)
}

/// The tally after an event.
pub open spec fn on_event_spec(t: Tally, f: EventFacts) -> Tally {
    let t1 = if f.has_text { Tally { tokens: (t.tokens + 1) as u32, ..t } } else { t };
    match f.usage {
        None => t1,
        Some((p, c)) => {
            let t2 = Tally { prompt_tokens: p as u32, ..t1 };
            match c {
                Some(ct) => if ct > 0 { Tally { tokens: ct as u32, ..t2 } } else { t2 },
                None => t2,
            }
        },
    }
}

impl Tally {
    /// Nothing seen yet.
    pub fn new() -> (t: Tally)
        ensures
            t.first_ms is None,
            t.tokens == 0,
            t.prompt_tokens == 0,
            !t.done,
    {
        Tally { first_ms: None, tokens: 0, prompt_tokens: 0, done: false }
    }

    /// A chunk of bytes arrived `elapsed_ms` after the request: the first non-blank one marks the
    /// first token.
    pub fn on_chunk(&mut self, chunk: &[u8], elapsed_ms: u64)
        ensures
            final(self).first_ms == (if old(self).first_ms is None && has_non_blank(chunk@) { Some(elapsed_ms) } else { old(self).first_ms }),
            final(self).tokens == old(self).tokens,
            final(self).prompt_tokens == old(self).prompt_tokens,
            final(self).done == old(self).done,
    {
        if self.first_ms.is_none() {
            let mut i: usize = 0;
            while i < chunk.len() && (chunk[i] == 32 || chunk[i] == 9 || chunk[i] == 10 || chunk[i] == 12 || chunk[i] == 13)
                invariant
                    i <= chunk@.len(),
                    forall|j: int| 0 <= j < i ==> (chunk@[j] == 32 || chunk@[j] == 9 || chunk@[j] == 10 || chunk@[j] == 12 || chunk@[j] == 13),
                decreases chunk@.len() - i,
            {
                i = i + 1;
            }
            if i < chunk.len() {
                self.first_ms = Some(elapsed_ms);
            }
        }
    }

    /// An event arrived: a piece of text counts one token; reported usage sets the prompt
    /// tokens and, when positive, the completion tokens.
    pub fn on_event(&mut self, f: EventFacts)
        requires
            old(self).tokens < u32::MAX,
        ensures
            *final(self) == on_event_spec(*old(self), f),
    {
        if f.has_text {
            self.tokens = self.tokens + 1;
        }
        if let Some((p, c)) = f.usage {
            self.prompt_tokens = p as u32;
            if let Some(ct) = c {
                if ct > 0 {
                    self.tokens = ct as u32;
                }
            }
        }
    }

    /// The end marker arrived `total_ms` after the request: the answer, the first time only
    /// (see [`on_done_spec`]).
    pub fn on_done(&mut self, total_ms: u64) -> (r: Option<Finished>)
        ensures
            (*final(self), r) == on_done_spec(*old(self), total_ms),
    {
        if self.done {
            return None;
        }
        self.done = true;
        let ttft = match self.first_ms {
            Some(f) => f,
            None => total_ms,
        };
        Some(Finished { ttft_ms: ttft, total_ms, tokens: self.tokens, prompt_tokens: self.prompt_tokens })
    }
}

/// The tally and the answer after the end marker arrives `total_ms` after the request: the
/// first marker finishes the answer (time to first token is the total when no token came),
/// later ones finish nothing.
pub open spec fn on_done_spec(t: Tally, total_ms: u64) -> (Tally, Option<Finished>) {
    if t.done {
        (t, None)
    } else {
        (Tally { done: true, ..t }, Some(Finished {
            ttft_ms: match t.first_ms { Some(f) => f, None => total_ms },
            total_ms,
            tokens: t.tokens,
            prompt_tokens: t.prompt_tokens,
        }))
    }
}

/// A stream is recorded once: after an end marker, a second one finishes nothing and changes
/// nothing.
pub proof fn law_done_once(t: Tally, a: u64, b: u64)
    ensures
        on_done_spec(on_done_spec(t, a).0, b).1 is None,
        on_done_spec(on_done_spec(t, a).0, b).0 == on_done_spec(t, a).0,
{
}

} // verus!
