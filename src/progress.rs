//! Progress of the external file-copy tool during propagation.
use vstd::prelude::*;

verus! {

/// How many files are left to check, out of how many.
#[derive(Debug, Clone, Copy, PartialEq, Eq, Structural)]
pub struct ToCheck {
    pub remaining: u32,
    pub total: u32,
}

/// Progress reporting for propagation.
pub trait ProgressCallback {
    /// Transfer progress reported by the copy tool.
    fn rsync_progress(
        &self,
        transferred_bytes: usize,
        progress: u8,
        speed: &str,
        elapsed_time: &str,
        transferred: Option<u32>,
        to_check: Option<ToCheck>,
    );
}

/// Progress reporting that reports nothing.
pub struct EmptyProgressCallback;

impl ProgressCallback for EmptyProgressCallback {
    fn rsync_progress(
        &self,
        transferred_bytes: usize,
        progress: u8,
        speed: &str,
        elapsed_time: &str,
        transferred: Option<u32>,
        to_check: Option<ToCheck>,
    ) {
    }
}

pub open spec fn is_space(c: char) -> bool {
    c == ' ' || c == '\t' || c == '\n' || c == '\r' || c == '\x0b' || c == '\x0c'
}

/// The words of the first `n` characters of `s`, as ranges, and the start
/// of a word still open at position `n`.
pub open spec fn split_state(s: Seq<char>, n: int) -> (Seq<(int, int)>, Option<int>)
    decreases n,
{
    if n <= 0 {
        (Seq::empty(), None)
    } else {
        let (ranges, open) = split_state(s, n - 1);
        if is_space(s[n - 1]) {
            match open {
                Some(a) => (ranges.push((a, n - 1)), None),
                None => (ranges, None),
            }
        } else {
            match open {
                Some(a) => (ranges, Some(a)),
                None => (ranges, Some(n - 1)),
            }
        }
    }
}

/// The ranges of the whitespace-separated words of `s`.
pub open spec fn word_ranges(s: Seq<char>) -> Seq<(int, int)> {
    let (ranges, open) = split_state(s, s.len() as int);
    match open {
        Some(a) => ranges.push((a, s.len() as int)),
        None => ranges,
    }
}

pub open spec fn is_digit(c: char) -> bool {
    '0' <= c && c <= '9'
}

/// The decimal value of a string of digits.
pub open spec fn digits_value(s: Seq<char>) -> nat
    decreases s.len(),
{
    if s.len() == 0 {
        0
    } else {
        digits_value(s.drop_last()) * 10 + (s.last() as nat - '0' as nat) as nat
    }
}

/// The number that `s` writes in decimal, if it is a non-empty string of
/// digits whose value is at most `max`.
pub open spec fn number_of(s: Seq<char>, max: nat) -> Option<nat> {
    if s.len() > 0 && (forall|i: int| 0 <= i < s.len() ==> is_digit(#[trigger] s[i]))
        && digits_value(s) <= max {
        Some(digits_value(s))
    } else {
        None
    }
}

/// `s` with its commas left out.
pub open spec fn without_commas(s: Seq<char>) -> Seq<char>
    decreases s.len(),
{
    if s.len() == 0 {
        s
    } else {
        let r = without_commas(s.drop_last());
        if s.last() == ',' {
            r
        } else {
            r.push(s.last())
        }
    }
}

/// The two numbers of `remaining/total`.
pub open spec fn fraction_of(s: Seq<char>) -> Option<(nat, nat)> {
    if exists|p: int| 0 <= p < s.len() && s[p] == '/' {
        let p = choose|p: int| 0 <= p < s.len() && s[p] == '/';
        match (number_of(s.subrange(0, p), u32::MAX as nat), number_of(s.subrange(p + 1, s.len() as int), u32::MAX as nat)) {
            (Some(a), Some(b)) => Some((a, b)),
            _ => None,
        }
    } else {
        None
    }
}

/// One progress record of the copy tool.
#[derive(Debug)]
pub struct ProgressLine {
    pub transferred_bytes: usize,
    pub progress: u8,
    pub speed: String,
    pub elapsed_time: String,
    pub transferred: Option<u32>,
    pub to_check: Option<ToCheck>,
}

/// The reading of the `k`-th word of `s`.
pub open spec fn word(s: Seq<char>, k: int) -> Seq<char> {
    s.subrange(word_ranges(s)[k].0, word_ranges(s)[k].1)
}

/// The fifth word, `(xfr#N,`: the number between its first five characters
/// and its last one.
pub open spec fn transferred_of(w: Seq<char>) -> Option<nat> {
    if w.len() >= 6 {
        number_of(w.subrange(5, w.len() - 1), u32::MAX as nat)
    } else {
        None
    }
}

/// The sixth word, `to-chk=R/T)`: the fraction between its first seven
/// characters and its last one.
pub open spec fn to_check_of(w: Seq<char>) -> Option<(nat, nat)> {
    if w.len() >= 8 {
        fraction_of(w.subrange(7, w.len() - 1))
    } else {
        None
    }
}

/// `line` is a well-formed progress record, and `r` is what it says.
pub open spec fn progress_line_is(s: Seq<char>, r: ProgressLine) -> bool {
    let w = word_ranges(s);
    &&& w.len() >= 4
    &&& number_of(without_commas(word(s, 0)), usize::MAX as nat) == Some(r.transferred_bytes as nat)
    &&& word(s, 1).len() > 0
    &&& number_of(word(s, 1).drop_last(), u8::MAX as nat) == Some(r.progress as nat)
    &&& r.speed@ == word(s, 2)
    &&& r.elapsed_time@ == word(s, 3)
    &&& if w.len() > 4 {
        transferred_of(word(s, 4)) is Some && r.transferred == Some(
            transferred_of(word(s, 4))->Some_0 as u32,
        )
    } else {
        r.transferred is None
    }
    &&& if w.len() > 5 {
        to_check_of(word(s, 5)) is Some && r.to_check == Some(
            ToCheck {
                remaining: to_check_of(word(s, 5))->Some_0.0 as u32,
                total: to_check_of(word(s, 5))->Some_0.1 as u32,
            },
        )
    } else {
        r.to_check is None
    }
}

/// `line` is a well-formed progress record.
pub open spec fn well_formed(s: Seq<char>) -> bool {
    let w = word_ranges(s);
    &&& w.len() >= 4
    &&& number_of(without_commas(word(s, 0)), usize::MAX as nat) is Some
    &&& word(s, 1).len() > 0
    &&& number_of(word(s, 1).drop_last(), u8::MAX as nat) is Some
    &&& w.len() > 4 ==> transferred_of(word(s, 4)) is Some
    &&& w.len() > 5 ==> to_check_of(word(s, 5)) is Some
}

proof fn lemma_digits_value_grows(s: Seq<char>, k: int)
    requires
        0 <= k <= s.len(),
    ensures
        digits_value(s.take(k)) <= digits_value(s),
    decreases s.len(),
{
    if k < s.len() {
        assert(s.drop_last().take(k) =~= s.take(k));
        lemma_digits_value_grows(s.drop_last(), k);
    } else {
        assert(s.take(k) =~= s);
    }
}

fn chars_of(text: &str) -> (r: Vec<char>)
    ensures
        r@ == text@,
{
    let n = text.unicode_len();
    let mut r: Vec<char> = Vec::new();
    let mut i: usize = 0;
    while i < n
        invariant
            n == text@.len(),
            i <= n,
            r@ == text@.take(i as int),
        decreases n - i,
    {
        r.push(text.get_char(i));
        assert(r@ =~= text@.take(i + 1));
        i = i + 1;
    }
    assert(text@.take(i as int) =~= text@);
    r
}

fn split_words(s: &Vec<char>) -> (r: Vec<(usize, usize)>)
    ensures
        r@.len() == word_ranges(s@).len(),
        forall|k: int|
            0 <= k < r@.len() ==> (#[trigger] r@[k]).0 as int == word_ranges(s@)[k].0 && r@[k].1 as int
                == word_ranges(s@)[k].1 && r@[k].0 <= r@[k].1 <= s@.len(),
{
    let mut ranges: Vec<(usize, usize)> = Vec::new();
    let mut open: Option<usize> = None;
    let mut i: usize = 0;
    while i < s.len()
        invariant
            i <= s@.len(),
            ranges@.len() == split_state(s@, i as int).0.len(),
            forall|k: int|
                0 <= k < ranges@.len() ==> (#[trigger] ranges@[k]).0 as int == split_state(
                    s@,
                    i as int,
                ).0[k].0 && ranges@[k].1 as int == split_state(s@, i as int).0[k].1
                    && ranges@[k].0 <= ranges@[k].1 <= i,
            match open {
                Some(a) => split_state(s@, i as int).1 == Some(a as int) && a < i,
                None => split_state(s@, i as int).1 is None,
            },
        decreases s.len() - i,
    {
        let c = s[i];
        if c == ' ' || c == '\t' || c == '\n' || c == '\r' || c == '\x0b' || c == '\x0c' {
            if let Some(a) = open {
                ranges.push((a, i));
                open = None;
            }
        } else if open.is_none() {
            open = Some(i);
        }
        i = i + 1;
    }
    if let Some(a) = open {
        ranges.push((a, s.len()));
    }
    ranges
}

fn parse_number(s: &Vec<char>, start: usize, end: usize, skip_commas: bool, max: u64) -> (r: Option<u64>)
    requires
        start <= end <= s@.len(),
    ensures
        ({
            let w = s@.subrange(start as int, end as int);
            let d = if skip_commas {
                without_commas(w)
            } else {
                w
            };
            match number_of(d, max as nat) {
                Some(v) => r == Some(v as u64),
                None => r is None,
            }
        }),
{
    let ghost w = s@.subrange(start as int, end as int);
    let ghost full = if skip_commas {
        without_commas(w)
    } else {
        w
    };
    let mut v: u64 = 0;
    let mut count: usize = 0;
    let ghost mut digits: Seq<char> = Seq::empty();
    let mut k: usize = start;
    while k < end
        invariant
            start <= k <= end <= s@.len(),
            w == s@.subrange(start as int, end as int),
            full == (if skip_commas {
                without_commas(w)
            } else {
                w
            }),
            digits == (if skip_commas {
                without_commas(w.take(k - start))
            } else {
                w.take(k - start)
            }),
            count as int == digits.len(),
            count <= k - start,
            digits.len() <= full.len(),
            full.subrange(0, digits.len() as int) == digits,
            forall|i: int| 0 <= i < digits.len() ==> is_digit(#[trigger] digits[i]),
            v as nat == digits_value(digits),
            v <= max,
        decreases end - k,
    {
        let c = s[k];
        proof {
            let t = w.take(k + 1 - start);
            assert(t.drop_last() =~= w.take(k - start));
            assert(t.last() == c);
            lemma_prefix_of_full(w, (k + 1 - start) as int, skip_commas);
        }
        if skip_commas && c == ',' {
        } else {
            let ghost before = digits;
            proof {
                digits = digits.push(c);
                let t = w.take(k + 1 - start);
                assert(digits == (if skip_commas {
                    without_commas(t)
                } else {
                    t
                })) by {
                    if !skip_commas {
                        assert(t =~= w.take(k - start).push(c));
                    }
                }
                assert(digits.len() <= full.len() && full.subrange(0, digits.len() as int) == digits);
                assert(full.subrange(0, digits.len() as int)[before.len() as int] == full[before.len() as int]);
                assert(full[before.len() as int] == c);
            }
            if !('0' <= c && c <= '9') {
                return None;
            }
            let d = (c as u32 - '0' as u32) as u64;
            proof {
                assert(digits.drop_last() =~= before);
                assert(digits_value(digits) == v * 10 + d);
                lemma_digits_value_grows(full, digits.len() as int);
                assert(full.take(digits.len() as int) =~= digits);
            }
            if d > max || v > (max - d) / 10 {
                proof {
                    if d <= max {
                        assert(v * 10 + d > max) by (nonlinear_arith)
                            requires
                                v > (max - d) / 10,
                                d <= max,
                        ;
                    }
                }
                return None;
            }
            proof {
                assert(v * 10 + d <= max) by (nonlinear_arith)
                    requires
                        v <= (max - d) / 10,
                        d <= max,
                ;
            }
            v = v * 10 + d;
            count = count + 1;
        }
        k = k + 1;
    }
    proof {
        assert(w.take(k - start) =~= w);
    }
    if count == 0 {
        return None;
    }
    Some(v)
}

proof fn lemma_prefix_of_full(w: Seq<char>, k: int, skip_commas: bool)
    requires
        0 <= k <= w.len(),
    ensures
        ({
            let full = if skip_commas { without_commas(w) } else { w };
            let part = if skip_commas { without_commas(w.take(k)) } else { w.take(k) };
            part.len() <= full.len() && full.subrange(0, part.len() as int) == part
        }),
    decreases w.len(),
{
    if skip_commas {
        if k < w.len() {
            assert(w.drop_last().take(k) =~= w.take(k));
            lemma_prefix_of_full(w.drop_last(), k, skip_commas);
            let full = without_commas(w);
            let inner = without_commas(w.drop_last());
            let part = without_commas(w.take(k));
            assert(full.subrange(0, part.len() as int) =~= inner.subrange(0, part.len() as int));
        } else {
            assert(w.take(k) =~= w);
            assert(without_commas(w).subrange(0, without_commas(w).len() as int) =~= without_commas(w));
        }
    } else {
        assert(w.subrange(0, k) =~= w.take(k));
    }
}

fn parse_fraction(s: &Vec<char>, start: usize, end: usize) -> (r: Option<(u32, u32)>)
    requires
        start <= end <= s@.len(),
    ensures
        match fraction_of(s@.subrange(start as int, end as int)) {
            Some(f) => r == Some((f.0 as u32, f.1 as u32)),
            None => r is None,
        },
{
    let ghost inner = s@.subrange(start as int, end as int);
    let mut p: usize = start;
    while p < end && s[p] != '/'
        invariant
            start <= p <= end <= s@.len(),
            inner == s@.subrange(start as int, end as int),
            forall|i: int| 0 <= i < p - start ==> inner[i] != '/',
        decreases end - p,
    {
        p = p + 1;
    }
    if p == end {
        return None;
    }
    let ghost q = choose|q: int| 0 <= q < inner.len() && inner[q] == '/';
    assert(inner[p - start] == '/');
    let a = parse_number(s, start, p, false, u32::MAX as u64);
    let b = parse_number(s, p + 1, end, false, u32::MAX as u64);
    proof {
        assert(inner.subrange(0, p - start) =~= s@.subrange(start as int, p as int));
        assert(inner.subrange(p - start + 1, inner.len() as int) =~= s@.subrange(p + 1, end as int));
        if q != p - start {
            assert(q > p - start);
            let before = inner.subrange(0, q);
            assert(before[p - start] == '/');
            assert(number_of(before, u32::MAX as nat) is None);
            let after = s@.subrange(p + 1, end as int);
            assert(after[q - (p - start) - 1] == '/');
            assert(number_of(after, u32::MAX as nat) is None);
        }
    }
    match (a, b) {
        (Some(x), Some(y)) => Some((x as u32, y as u32)),
        _ => None,
    }
}

/// Reads one record of the copy tool's progress output: whitespace-separated
/// words giving the bytes transferred (with thousands separators), the
/// percentage (a number and one more character), the speed, the elapsed
/// time, and optionally `(xfr#N,` and `to-chk=R/T)`. `None` when the record
/// is not of that form.
pub fn parse_progress_line(text: &str) -> (r: Option<ProgressLine>)
    ensures
        r is Some <==> well_formed(text@),
        r is Some ==> progress_line_is(text@, r->Some_0),
{
    let s = chars_of(text);
    let w = split_words(&s);
    let ghost t = text@;
    if w.len() < 4 {
        return None;
    }
    let bytes = match parse_number(&s, w[0].0, w[0].1, true, usize::MAX as u64) {
        Some(v) => v as usize,
        None => return None,
    };
    if w[1].0 == w[1].1 {
        return None;
    }
    proof {
        assert(word(t, 1).drop_last() =~= t.subrange(w@[1].0 as int, w@[1].1 - 1));
    }
    let progress = match parse_number(&s, w[1].0, w[1].1 - 1, false, 255) {
        Some(v) => v as u8,
        None => return None,
    };
    let speed = text.substring_char(w[2].0, w[2].1).to_owned();
    let elapsed_time = text.substring_char(w[3].0, w[3].1).to_owned();
    let transferred = if w.len() > 4 {
        let (a, b) = w[4];
        if b - a < 6 {
            return None;
        }
        proof {
            assert(word(t, 4).subrange(5, word(t, 4).len() - 1) =~= t.subrange(a + 5, b - 1));
        }
        match parse_number(&s, a + 5, b - 1, false, u32::MAX as u64) {
            Some(v) => Some(v as u32),
            None => return None,
        }
    } else {
        None
    };
    let to_check = if w.len() > 5 {
        let (a, b) = w[5];
        if b - a < 8 {
            return None;
        }
        proof {
            assert(word(t, 5).subrange(7, word(t, 5).len() - 1) =~= t.subrange(a + 7, b - 1));
        }
        match parse_fraction(&s, a + 7, b - 1) {
            Some((remaining, total)) => Some(ToCheck { remaining, total }),
            None => return None,
        }
    } else {
        None
    };
    Some(ProgressLine { transferred_bytes: bytes, progress, speed, elapsed_time, transferred, to_check })
}

} // verus!
