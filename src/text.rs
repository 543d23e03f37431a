//! Clean-up of printed programs: `nop` instructions are dropped, from their
//! own lines and from inside `(seq ...)` forms.
use vstd::prelude::*;

verus! {

/// Unicode White_Space, the characters `char::is_whitespace` accepts.
pub open spec fn is_ws(c: char) -> bool {
    let u = c as u32;
    u == 0x20 || (0x09 <= u && u <= 0x0d) || u == 0x85 || u == 0xa0 || u == 0x1680 || (0x2000 <= u
        && u <= 0x200a) || u == 0x2028 || u == 0x2029 || u == 0x202f || u == 0x205f || u == 0x3000
}

/// Whether `c` is whitespace.
pub fn ws(c: char) -> (r: bool)
    ensures
        r == is_ws(c),
{
    let u = c as u32;
    u == 0x20 || (0x09 <= u && u <= 0x0d) || u == 0x85 || u == 0xa0 || u == 0x1680 || (0x2000 <= u
        && u <= 0x200a) || u == 0x2028 || u == 0x2029 || u == 0x202f || u == 0x205f || u == 0x3000
}

pub open spec fn trim_start(s: Seq<char>) -> Seq<char>
    decreases s.len(),
{
    if s.len() > 0 && is_ws(s[0]) {
        trim_start(s.drop_first())
    } else {
        s
    }
}

pub open spec fn trim_end(s: Seq<char>) -> Seq<char>
    decreases s.len(),
{
    if s.len() > 0 && is_ws(s.last()) {
        trim_end(s.drop_last())
    } else {
        s
    }
}

pub open spec fn trim(s: Seq<char>) -> Seq<char> {
    trim_end(trim_start(s))
}

/// The words of `s` from position `i` on, when the current word (if any)
/// started at `start`: maximal runs of non-whitespace characters.
pub open spec fn words_from(s: Seq<char>, i: int, start: Option<int>) -> Seq<Seq<char>>
    decreases s.len() - i,
{
    if i >= s.len() {
        match start {
            Some(a) => seq![s.subrange(a, s.len() as int)],
            None => seq![],
        }
    } else if is_ws(s[i]) {
        match start {
            Some(a) => seq![s.subrange(a, i)] + words_from(s, i + 1, None),
            None => words_from(s, i + 1, None),
        }
    } else {
        match start {
            Some(a) => words_from(s, i + 1, Some(a)),
            None => words_from(s, i + 1, Some(i)),
        }
    }
}

/// The whitespace-separated words of `s`.
pub open spec fn words(s: Seq<char>) -> Seq<Seq<char>> {
    words_from(s, 0, None)
}

pub open spec fn nop_word() -> Seq<char> {
    seq!['n', 'o', 'p']
}

pub open spec fn seq_head() -> Seq<char> {
    seq!['(', 's', 'e', 'q']
}

/// The words other than `nop`, in order.
pub open spec fn drop_nops(ws: Seq<Seq<char>>) -> Seq<Seq<char>>
    decreases ws.len(),
{
    if ws.len() == 0 {
        seq![]
    } else {
        drop_nops(ws.drop_last()) + if ws.last() == nop_word() { seq![] } else { seq![ws.last()] }
    }
}

/// The pieces joined with `sep` between neighbours.
pub open spec fn join_with(ws: Seq<Seq<char>>, sep: char) -> Seq<char>
    decreases ws.len(),
{
    if ws.len() == 0 {
        seq![]
    } else if ws.len() == 1 {
        ws[0]
    } else {
        join_with(ws.drop_last(), sep) + seq![sep] + ws.last()
    }
}

/// `s`, trimmed, reads `(seq ... )`.
pub open spec fn seq_form(s: Seq<char>) -> bool {
    let t = trim(s);
    t.len() >= 4 && t.subrange(0, 4) == seq_head() && t.len() > 0 && t.last() == ')'
}

/// A `(seq ... )` form with every `nop` word removed and the rest single-spaced.
pub open spec fn cleaned(s: Seq<char>) -> Seq<char> {
    let t = trim(s);
    let inner = trim_start(t.subrange(4, t.len() as int)).drop_last();
    seq!['(', 's', 'e', 'q', ' '] + join_with(drop_nops(words(inner)), ' ') + seq![')']
}

/// Relies on `String::push`: appends one character.
#[verifier::external_body]
fn push_char(s: &mut String, c: char)
    ensures
        final(s)@ == old(s)@.push(c),
{
    s.push(c)
}

/// The characters of `s`.
fn chars_of(s: &str) -> (r: Vec<char>)
    ensures
        r@ == s@,
{
    let n = s.unicode_len();
    let mut r: Vec<char> = Vec::new();
    let mut i: usize = 0;
    while i < n
        invariant
            n == s@.len(),
            i <= n,
            r@ == s@.subrange(0, i as int),
        decreases n - i,
    {
        r.push(s.get_char(i));
        i = i + 1;
        assert(r@ =~= s@.subrange(0, i as int));
    }
    assert(r@ =~= s@);
    r
}

/// A string of the characters `v`.
fn string_of(v: &Vec<char>) -> (r: String)
    ensures
        r@ == v@,
{
    let mut r = String::new();
    let mut i: usize = 0;
    while i < v.len()
        invariant
            i <= v@.len(),
            r@ == v@.subrange(0, i as int),
        decreases v@.len() - i,
    {
        push_char(&mut r, v[i]);
        i = i + 1;
        assert(r@ =~= v@.subrange(0, i as int));
    }
    assert(r@ =~= v@);
    r
}

/// The bounds of `s[lo..hi]` with leading whitespace skipped.
fn skip_ws(s: &Vec<char>, lo: usize, hi: usize) -> (r: usize)
    requires
        lo <= hi <= s@.len(),
    ensures
        lo <= r <= hi,
        s@.subrange(r as int, hi as int) == trim_start(s@.subrange(lo as int, hi as int)),
        forall|k: int| lo <= k < r ==> is_ws(#[trigger] s@[k]),
{
    let mut i = lo;
    while i < hi && ws(s[i])
        invariant
            lo <= i <= hi <= s@.len(),
            trim_start(s@.subrange(lo as int, hi as int)) == trim_start(s@.subrange(i as int, hi as int)),
            forall|k: int| lo <= k < i ==> is_ws(#[trigger] s@[k]),
        decreases hi - i,
    {
        assert(s@.subrange(i as int, hi as int).drop_first() =~= s@.subrange(i + 1, hi as int));
        i = i + 1;
    }
    i
}

/// The end of `s[lo..hi]` with trailing whitespace dropped.
fn drop_ws_end(s: &Vec<char>, lo: usize, hi: usize) -> (r: usize)
    requires
        lo <= hi <= s@.len(),
    ensures
        lo <= r <= hi,
        s@.subrange(lo as int, r as int) == trim_end(s@.subrange(lo as int, hi as int)),
{
    let mut j = hi;
    while j > lo && ws(s[j - 1])
        invariant
            lo <= j <= hi <= s@.len(),
            trim_end(s@.subrange(lo as int, hi as int)) == trim_end(s@.subrange(lo as int, j as int)),
        decreases j,
    {
        assert(s@.subrange(lo as int, j as int).drop_last() =~= s@.subrange(lo as int, j - 1));
        j = j - 1;
    }
    j
}

/// The bounds of `trim(s[lo..hi])`.
fn trim_bounds(s: &Vec<char>, lo: usize, hi: usize) -> (r: (usize, usize))
    requires
        lo <= hi <= s@.len(),
    ensures
        lo <= r.0 <= r.1 <= hi,
        s@.subrange(r.0 as int, r.1 as int) == trim(s@.subrange(lo as int, hi as int)),
{
    let a = skip_ws(s, lo, hi);
    let b = drop_ws_end(s, a, hi);
    (a, b)
}

/// The words of `s[lo..hi]`, as bounds.
fn word_bounds(s: &Vec<char>, lo: usize, hi: usize) -> (r: Vec<(usize, usize)>)
    requires
        lo <= hi <= s@.len(),
    ensures
        r@.map_values(|p: (usize, usize)| s@.subrange(p.0 as int, p.1 as int)) == words(s@.subrange(lo as int, hi as int)),
        forall|k: int| 0 <= k < r@.len() ==> (#[trigger] r@[k]).0 <= r@[k].1 <= s@.len(),
{
    let ghost u = s@.subrange(lo as int, hi as int);
    let mut r: Vec<(usize, usize)> = Vec::new();
    let mut start: Option<usize> = None;
    let mut i = lo;
    while i < hi
        invariant
            lo <= i <= hi <= s@.len(),
            u == s@.subrange(lo as int, hi as int),
            match start {
                Some(a) => lo <= a < i,
                None => true,
            },
            forall|k: int| 0 <= k < r@.len() ==> (#[trigger] r@[k]).0 <= r@[k].1 <= s@.len(),
            words(u) == r@.map_values(|p: (usize, usize)| s@.subrange(p.0 as int, p.1 as int)) + words_from(
                u,
                i - lo,
                match start {
                    Some(a) => Some(a - lo),
                    None => None,
                },
            ),
        decreases hi - i,
    {
        let ghost rv = r@.map_values(|p: (usize, usize)| s@.subrange(p.0 as int, p.1 as int));
        assert(u[i - lo] == s@[i as int]);
        if ws(s[i]) {
            match start {
                Some(a) => {
                    assert(u.subrange(a - lo, i - lo) =~= s@.subrange(a as int, i as int));
                    r.push((a, i));
                    assert(r@.map_values(|p: (usize, usize)| s@.subrange(p.0 as int, p.1 as int)) =~= rv.push(s@.subrange(a as int, i as int)));
                    start = None;
                },
                None => {},
            }
        } else {
            match start {
                Some(_) => {},
                None => {
                    start = Some(i);
                },
            }
        }
        i = i + 1;
    }
    let ghost rv = r@.map_values(|p: (usize, usize)| s@.subrange(p.0 as int, p.1 as int));
    match start {
        Some(a) => {
            assert(u.subrange(a - lo, u.len() as int) =~= s@.subrange(a as int, hi as int));
            r.push((a, hi));
            assert(r@.map_values(|p: (usize, usize)| s@.subrange(p.0 as int, p.1 as int)) =~= rv.push(s@.subrange(a as int, hi as int)));
        },
        None => {
            assert(rv + seq![] =~= rv);
        },
    }
    r
}

/// Whether `s[a..b]` is `nop`.
fn is_nop(s: &Vec<char>, a: usize, b: usize) -> (r: bool)
    requires
        a <= b <= s@.len(),
    ensures
        r == (s@.subrange(a as int, b as int) == nop_word()),
{
    if b - a != 3 {
        assert(nop_word().len() == 3);
        return false;
    }
    let r = s[a] == 'n' && s[a + 1] == 'o' && s[a + 2] == 'p';
    proof {
        if r {
            assert(s@.subrange(a as int, b as int) =~= nop_word());
        } else {
            let w = s@.subrange(a as int, b as int);
            assert(w[0] == s@[a as int] && w[1] == s@[a + 1] && w[2] == s@[a + 2]);
            assert(nop_word()[0] == 'n' && nop_word()[1] == 'o' && nop_word()[2] == 'p');
        }
    }
    r
}

/// Appends `s[a..b]` to `out`.
fn append_range(out: &mut Vec<char>, s: &Vec<char>, a: usize, b: usize)
    requires
        a <= b <= s@.len(),
    ensures
        final(out)@ == old(out)@ + s@.subrange(a as int, b as int),
{
    let mut i = a;
    while i < b
        invariant
            a <= i <= b <= s@.len(),
            out@ == old(out)@ + s@.subrange(a as int, i as int),
        decreases b - i,
    {
        out.push(s[i]);
        i = i + 1;
        assert(out@ =~= old(out)@ + s@.subrange(a as int, i as int));
    }
}

/// The characters of `cleaned(s)`.
fn clean_chars(s: &Vec<char>) -> (r: Vec<char>)
    requires
        seq_form(s@),
    ensures
        r@ == cleaned(s@),
{
    let n = s.len();
    assert(s@.subrange(0, n as int) =~= s@);
    let (a, b) = trim_bounds(s, 0, n);
    let ghost t = trim(s@);
    assert(t == s@.subrange(a as int, b as int));
    assert(t.last() == s@[b - 1]);
    assert(t.subrange(4, t.len() as int) =~= s@.subrange(a + 4, b as int));
    let a2 = skip_ws(s, a + 4, b);
    assert(!is_ws(s@[b - 1])) by {
        assert(s@[b - 1] == ')');
    }
    assert(a2 < b);
    let ghost inner = trim_start(t.subrange(4, t.len() as int)).drop_last();
    assert(inner =~= s@.subrange(a2 as int, b - 1));
    let wsb = word_bounds(s, a2, b - 1);
    let ghost wv = wsb@.map_values(|p: (usize, usize)| s@.subrange(p.0 as int, p.1 as int));
    let mut out: Vec<char> = Vec::new();
    out.push('(');
    out.push('s');
    out.push('e');
    out.push('q');
    out.push(' ');
    let ghost head = out@;
    let mut kept = false;
    let mut k: usize = 0;
    while k < wsb.len()
        invariant
            k <= wsb@.len(),
            wv == wsb@.map_values(|p: (usize, usize)| s@.subrange(p.0 as int, p.1 as int)),
            forall|q: int| 0 <= q < wsb@.len() ==> (#[trigger] wsb@[q]).0 <= wsb@[q].1 <= s@.len(),
            kept == (drop_nops(wv.subrange(0, k as int)).len() > 0),
            out@ == head + join_with(drop_nops(wv.subrange(0, k as int)), ' '),
        decreases wsb@.len() - k,
    {
        let (p, q) = wsb[k];
        assert(wv[k as int] == s@.subrange(p as int, q as int));
        assert(wv.subrange(0, k + 1).drop_last() =~= wv.subrange(0, k as int));
        assert(wv.subrange(0, k + 1).last() == wv[k as int]);
        let ghost prev = drop_nops(wv.subrange(0, k as int));
        if !is_nop(s, p, q) {
            let ghost nxt = prev.push(wv[k as int]);
            assert(drop_nops(wv.subrange(0, k + 1)) =~= nxt);
            assert(nxt.drop_last() =~= prev);
            if kept {
                out.push(' ');
            }
            append_range(&mut out, s, p, q);
            assert(out@ =~= head + join_with(nxt, ' '));
            kept = true;
        } else {
            assert(drop_nops(wv.subrange(0, k + 1)) =~= prev);
        }
        k = k + 1;
    }
    assert(wv.subrange(0, k as int) =~= wv);
    out.push(')');
    out
}

/// A `(seq ...)` form with every `nop` removed from inside it.
pub fn clean_sequence(seq: &str) -> (r: String)
    requires
        seq_form(seq@),
    ensures
        r@ == cleaned(seq@),
{
    let s = chars_of(seq);
    let c = clean_chars(&s);
    string_of(&c)
}

/// The lines of `s` from position `i` on, the current one starting at
/// `start`: split at each newline, with no empty line after a final newline.
pub open spec fn lines_from(s: Seq<char>, i: int, start: int) -> Seq<Seq<char>>
    decreases s.len() - i,
{
    if i >= s.len() {
        if start < s.len() {
            seq![s.subrange(start, s.len() as int)]
        } else {
            seq![]
        }
    } else if s[i] == '\n' {
        seq![s.subrange(start, i)] + lines_from(s, i + 1, i + 1)
    } else {
        lines_from(s, i + 1, start)
    }
}

pub open spec fn lines(s: Seq<char>) -> Seq<Seq<char>> {
    lines_from(s, 0, 0)
}

/// How many times `c` occurs in `s`.
pub open spec fn count_of(s: Seq<char>, c: char) -> nat
    decreases s.len(),
{
    if s.len() == 0 {
        0
    } else {
        count_of(s.drop_last(), c) + if s.last() == c { 1nat } else { 0nat }
    }
}

/// The state of the line scan: finished lines, the `(seq` form being
/// gathered, whether one is open, its parenthesis depth, and whether the scan
/// is still good.
pub struct NopScan {
    pub out: Seq<Seq<char>>,
    pub buf: Seq<char>,
    pub in_seq: bool,
    pub depth: nat,
    pub ok: bool,
}

/// The state of a failed scan.
pub open spec fn scan_failed() -> NopScan {
    NopScan { out: seq![], buf: seq![], in_seq: false, depth: 0, ok: false }
}

/// One line of the scan. A `nop` line is dropped. A line starting `(seq`
/// opens (or continues) a form; while a form is open, lines join it until the
/// parentheses balance, and the form is then cleaned. Other lines are kept
/// trimmed. The depth is a machine word, so a depth past it, or below zero,
/// fails the scan, as does a closed form that is not `(seq ...)`.
pub open spec fn scan_step(st: NopScan, line: Seq<char>) -> NopScan {
    let t = trim(line);
    let d = st.depth + count_of(t, '(');
    let closes = count_of(t, ')');
    if !st.ok || t == nop_word() {
        st
    } else if t.len() >= 4 && t.subrange(0, 4) == seq_head() {
        if d > usize::MAX || d < closes {
            scan_failed()
        } else {
            NopScan { out: st.out, buf: st.buf + t + seq![' '], in_seq: true, depth: (d - closes) as nat, ok: true }
        }
    } else if st.in_seq {
        if d > usize::MAX || d < closes {
            scan_failed()
        } else if d - closes == 0 {
            let b = st.buf + t + seq![' '];
            if seq_form(b) {
                NopScan { out: st.out.push(cleaned(b)), buf: seq![], in_seq: false, depth: 0, ok: true }
            } else {
                scan_failed()
            }
        } else {
            NopScan { out: st.out, buf: st.buf + t + seq![' '], in_seq: true, depth: (d - closes) as nat, ok: true }
        }
    } else {
        NopScan { out: st.out.push(t), buf: st.buf, in_seq: st.in_seq, depth: st.depth, ok: true }
    }
}

/// The scan after the given lines.
pub open spec fn scan(ls: Seq<Seq<char>>) -> NopScan
    decreases ls.len(),
{
    if ls.len() == 0 {
        NopScan { out: seq![], buf: seq![], in_seq: false, depth: 0, ok: true }
    } else {
        scan_step(scan(ls.drop_last()), ls.last())
    }
}

/// `s` with its `nop` lines dropped, every line trimmed, and every `(seq ...)`
/// form cleaned; `None` where the scan fails or an unclosed form at the end is
/// not `(seq ...)`.
pub open spec fn without_nops(s: Seq<char>) -> Option<Seq<char>> {
    let st = scan(lines(s));
    if !st.ok {
        None
    } else if st.in_seq {
        if seq_form(st.buf) {
            Some(join_with(st.out.push(cleaned(st.buf)), '\n'))
        } else {
            None
        }
    } else {
        Some(join_with(st.out, '\n'))
    }
}

/// The scan state held by the executable scan.
struct ScanState {
    out: Vec<Vec<char>>,
    buf: Vec<char>,
    in_seq: bool,
    depth: usize,
    ok: bool,
}

pub open spec fn views(v: Seq<Vec<char>>) -> Seq<Seq<char>> {
    v.map_values(|w: Vec<char>| w@)
}

impl ScanState {
    spec fn view(&self) -> NopScan {
        NopScan { out: views(self.out@), buf: self.buf@, in_seq: self.in_seq, depth: self.depth as nat, ok: self.ok }
    }

    fn new() -> (r: ScanState)
        ensures
            r.view() == scan(seq![]),
    {
        let r = ScanState { out: Vec::new(), buf: Vec::new(), in_seq: false, depth: 0, ok: true };
        assert(views(r.out@) =~= seq![]);
        r
    }

    fn fail(&mut self)
        ensures
            final(self).view() == scan_failed(),
    {
        self.out = Vec::new();
        self.buf = Vec::new();
        self.in_seq = false;
        self.depth = 0;
        self.ok = false;
        assert(views(self.out@) =~= seq![]);
    }
}

/// `count_of(s[lo..hi], c)`.
fn count_in(s: &Vec<char>, lo: usize, hi: usize, c: char) -> (r: usize)
    requires
        lo <= hi <= s@.len(),
    ensures
        r == count_of(s@.subrange(lo as int, hi as int), c),
{
    let mut n: usize = 0;
    let mut i = lo;
    while i < hi
        invariant
            lo <= i <= hi <= s@.len(),
            n <= i - lo,
            n == count_of(s@.subrange(lo as int, i as int), c),
        decreases hi - i,
    {
        assert(s@.subrange(lo as int, i + 1).drop_last() =~= s@.subrange(lo as int, i as int));
        if s[i] == c {
            n = n + 1;
        }
        i = i + 1;
    }
    n
}

/// Whether `trim(s)` reads `(seq ... )`.
fn is_seq_form(s: &Vec<char>) -> (r: bool)
    ensures
        r == seq_form(s@),
{
    let n = s.len();
    assert(s@.subrange(0, n as int) =~= s@);
    let (a, b) = trim_bounds(s, 0, n);
    let ghost t = trim(s@);
    if b - a < 4 {
        return false;
    }
    assert(t.subrange(0, 4) =~= seq![s@[a as int], s@[a + 1], s@[a + 2], s@[a + 3]]);
    let head = s[a] == '(' && s[a + 1] == 's' && s[a + 2] == 'e' && s[a + 3] == 'q';
    proof {
        if !head {
            assert(seq_head()[0] == '(' && seq_head()[1] == 's' && seq_head()[2] == 'e' && seq_head()[3] == 'q');
        } else {
            assert(t.subrange(0, 4) =~= seq_head());
        }
    }
    head && s[b - 1] == ')'
}

/// One scan step over the line `s[lo..hi]`.
fn scan_line(st: &mut ScanState, s: &Vec<char>, lo: usize, hi: usize)
    requires
        lo <= hi <= s@.len(),
    ensures
        final(st).view() == scan_step(old(st).view(), s@.subrange(lo as int, hi as int)),
{
    let ghost line = s@.subrange(lo as int, hi as int);
    let (a, b) = trim_bounds(s, lo, hi);
    let ghost t = trim(line);
    assert(t == s@.subrange(a as int, b as int));
    if !st.ok {
        return;
    }
    if is_nop(s, a, b) {
        return;
    }
    let opens = count_in(s, a, b, '(');
    let closes = count_in(s, a, b, ')');
    let starts = b - a >= 4 && s[a] == '(' && s[a + 1] == 's' && s[a + 2] == 'e' && s[a + 3] == 'q';
    proof {
        if b - a >= 4 {
            assert(t.subrange(0, 4) =~= seq![s@[a as int], s@[a + 1], s@[a + 2], s@[a + 3]]);
            assert(seq_head() =~= seq!['(', 's', 'e', 'q']);
        }
    }
    assert(starts == (t.len() >= 4 && t.subrange(0, 4) == seq_head()));
    if !starts && !st.in_seq {
        let mut line_out: Vec<char> = Vec::new();
        append_range(&mut line_out, s, a, b);
        let ghost o = views(st.out@);
        st.out.push(line_out);
        assert(views(st.out@) =~= o.push(t));
        return;
    }
    if opens > usize::MAX - st.depth || st.depth + opens < closes {
        st.fail();
        return;
    }
    let d = st.depth + opens - closes;
    append_range(&mut st.buf, s, a, b);
    st.buf.push(' ');
    assert(st.buf@ =~= old(st).buf@ + t + seq![' ']);
    assert(opens == count_of(t, '('));
    assert(closes == count_of(t, ')'));
    if starts || d != 0 {
        st.in_seq = true;
        st.depth = d;
        return;
    }
    if is_seq_form(&st.buf) {
        let c = clean_chars(&st.buf);
        let ghost o = views(st.out@);
        st.out.push(c);
        assert(views(st.out@) =~= o.push(cleaned(st.buf@)));
        st.buf = Vec::new();
        st.in_seq = false;
        st.depth = 0;
    } else {
        st.fail();
    }
}

/// The pieces joined with `sep` between neighbours.
fn join_chars(ws: &Vec<Vec<char>>, sep: char) -> (r: Vec<char>)
    ensures
        r@ == join_with(views(ws@), sep),
{
    let mut out: Vec<char> = Vec::new();
    let mut k: usize = 0;
    while k < ws.len()
        invariant
            k <= ws@.len(),
            out@ == join_with(views(ws@).subrange(0, k as int), sep),
        decreases ws@.len() - k,
    {
        let ghost pre = views(ws@).subrange(0, k as int);
        let ghost nxt = views(ws@).subrange(0, k + 1);
        assert(nxt.drop_last() =~= pre);
        assert(nxt.last() == ws@[k as int]@);
        if k > 0 {
            out.push(sep);
        }
        let w = &ws[k];
        let mut i: usize = 0;
        let ghost o0 = out@;
        while i < w.len()
            invariant
                i <= w@.len(),
                out@ == o0 + w@.subrange(0, i as int),
            decreases w@.len() - i,
        {
            out.push(w[i]);
            i = i + 1;
            assert(out@ =~= o0 + w@.subrange(0, i as int));
        }
        assert(w@.subrange(0, i as int) =~= w@);
        proof {
            if k == 0 {
                assert(nxt.len() == 1);
                assert(out@ =~= nxt[0]);
            }
        }
        k = k + 1;
    }
    assert(views(ws@).subrange(0, k as int) =~= views(ws@));
    out
}

/// Drops `nop` instructions from a printed program: lines that are `nop`
/// vanish, every line is trimmed, and each `(seq ...)` form, which may span
/// several lines, is gathered onto one line with its `nop` words removed.
/// `None` where a form's parentheses close below zero or a gathered form is
/// not `(seq ... )`.
pub fn remove_nops(input: &str) -> (r: Option<String>)
    ensures
        match r {
            Some(t) => without_nops(input@) == Some(t@),
            None => without_nops(input@) is None,
        },
{
    let s = chars_of(input);
    let n = s.len();
    let mut st = ScanState::new();
    let ghost mut done: Seq<Seq<char>> = seq![];
    let mut start: usize = 0;
    let mut i: usize = 0;
    while i < n
        invariant
            n == s@.len(),
            s@ == input@,
            start <= i <= n,
            lines(s@) == done + lines_from(s@, i as int, start as int),
            st.view() == scan(done),
        decreases n - i,
    {
        if s[i] == '\n' {
            scan_line(&mut st, &s, start, i);
            proof {
                let l = s@.subrange(start as int, i as int);
                assert(done.push(l).drop_last() =~= done);
                assert(lines_from(s@, i as int, start as int) == seq![l] + lines_from(s@, i + 1, i + 1));
                assert(done + lines_from(s@, i as int, start as int) =~= done.push(l) + lines_from(s@, i + 1, i + 1));
                done = done.push(l);
            }
            start = i + 1;
        }
        i = i + 1;
    }
    if start < n {
        scan_line(&mut st, &s, start, n);
        proof {
            let l = s@.subrange(start as int, n as int);
            assert(done.push(l).drop_last() =~= done);
            assert(lines(s@) =~= done.push(l));
            done = done.push(l);
        }
    } else {
        assert(lines(s@) =~= done);
    }
    if !st.ok {
        return None;
    }
    if st.in_seq {
        if !is_seq_form(&st.buf) {
            return None;
        }
        let c = clean_chars(&st.buf);
        let ghost o = views(st.out@);
        st.out.push(c);
        assert(views(st.out@) =~= o.push(cleaned(st.buf@)));
    }
    let joined = join_chars(&st.out, '\n');
    Some(string_of(&joined))
}

} // verus!
