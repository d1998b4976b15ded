//! Text helpers: the characters of a string and its lines.
use vstd::prelude::*;
use vstd::string::StrSliceExecFns;

verus! {

/// A line without its final carriage return.
pub open spec fn strip_cr(l: Seq<char>) -> Seq<char> {
    if l.len() > 0 && l.last() == '\r' {
        l.drop_last()
    } else {
        l
    }
}

/// Index of the first line feed at or after `i` (the length when there is none).
pub open spec fn newline_at(s: Seq<char>, i: int) -> int
    decreases s.len() - i,
{
    if i >= s.len() {
        s.len() as int
    } else if s[i] == '\n' {
        i
    } else {
        newline_at(s, i + 1)
    }
}

pub proof fn lemma_newline_at(s: Seq<char>, i: int)
    requires
        0 <= i,
    ensures
        i <= newline_at(s, i) || (i > s.len() && newline_at(s, i) == s.len()),
        newline_at(s, i) <= s.len() || i > s.len(),
        newline_at(s, i) < s.len() ==> s[newline_at(s, i)] == '\n',
        forall|j: int| i <= j < newline_at(s, i) ==> s[j] != '\n',
    decreases s.len() - i,
{
    if i < s.len() && s[i] != '\n' {
        lemma_newline_at(s, i + 1);
    }
}

/// The lines of the text from index `i` on, split at line feeds; a carriage
/// return before a line feed is dropped, and a final line feed ends the last line.
pub open spec fn lines_from(s: Seq<char>, i: int) -> Seq<Seq<char>>
    decreases s.len() - i,
{
    if i < 0 || i >= s.len() {
        seq![]
    } else {
        let k = newline_at(s, i);
        proof {
            lemma_newline_at(s, i);
        }
        if k >= s.len() {
            seq![s.subrange(i, s.len() as int)]
        } else {
            seq![strip_cr(s.subrange(i, k))] + lines_from(s, k + 1)
        }
    }
}

/// The lines of a text, as `str::lines` splits them.
pub open spec fn text_lines(s: Seq<char>) -> Seq<Seq<char>> {
    lines_from(s, 0)
}

/// The characters of a string.
pub fn text_chars(s: &str) -> (r: Vec<char>)
    ensures
        r@ == s@,
{
    let n = s.unicode_len();
    let mut out: Vec<char> = Vec::new();
    let mut i: usize = 0;
    while i < n
        invariant
            n == s@.len(),
            i <= n,
            out@ == s@.subrange(0, i as int),
        decreases n - i,
    {
        out.push(s.get_char(i));
        i += 1;
        assert(out@ =~= s@.subrange(0, i as int));
    }
    assert(out@ =~= s@);
    out
}

fn copy_range(s: &Vec<char>, from: usize, to: usize) -> (r: Vec<char>)
    requires
        from <= to <= s.len(),
    ensures
        r@ == s@.subrange(from as int, to as int),
{
    let mut out: Vec<char> = Vec::new();
    let mut i = from;
    while i < to
        invariant
            from <= i <= to,
            to <= s.len(),
            out@ == s@.subrange(from as int, i as int),
        decreases to - i,
    {
        out.push(s[i]);
        i += 1;
        assert(out@ =~= s@.subrange(from as int, i as int));
    }
    out
}

/// The lines of a text.
pub fn split_lines(s: &Vec<char>) -> (r: Vec<Vec<char>>)
    ensures
        r.len() == text_lines(s@).len(),
        forall|i: int| 0 <= i < r.len() ==> #[trigger] r[i]@ == text_lines(s@)[i],
{
    let n = s.len();
    let mut out: Vec<Vec<char>> = Vec::new();
    let mut start: usize = 0;
    let ghost mut done: Seq<Seq<char>> = seq![];
    while start < n
        invariant
            n == s@.len(),
            start <= n,
            out.len() == done.len(),
            forall|i: int| 0 <= i < out.len() ==> #[trigger] out[i]@ == done[i],
            done + lines_from(s@, start as int) == text_lines(s@),
        decreases n - start,
    {
        let mut k = start;
        while k < n && s[k] != '\n'
            invariant
                start <= k <= n,
                n == s@.len(),
                forall|j: int| start <= j < k ==> s@[j] != '\n',
            decreases n - k,
        {
            k += 1;
        }
        proof {
            lemma_newline_at(s@, start as int);
            assert(newline_at(s@, start as int) == k) by {
                if newline_at(s@, start as int) < k {
                    assert(s@[newline_at(s@, start as int)] != '\n');
                }
            }
        }
        if k == n {
            let line = copy_range(s, start, n);
            proof {
                done = done + seq![line@];
                assert(lines_from(s@, n as int) == Seq::<Seq<char>>::empty());
            }
            out.push(line);
            start = n;
        } else {
            let mut end = k;
            if end > start && s[end - 1] == '\r' {
                end = end - 1;
            }
            let line = copy_range(s, start, end);
            proof {
                let full = s@.subrange(start as int, k as int);
                assert(line@ =~= strip_cr(full));
                done = done + seq![line@];
            }
            out.push(line);
            start = k + 1;
        }
        proof {
            assert forall|i: int| 0 <= i < out.len() implies #[trigger] out[i]@ == done[i] by {}
            assert(done + lines_from(s@, start as int) =~= text_lines(s@));
        }
    }
    proof {
        assert(done + lines_from(s@, start as int) =~= done);
    }
    out
}

/// Whether `pattern` occurs in `line`.
pub open spec fn contains_seq(line: Seq<char>, pattern: Seq<char>) -> bool {
    exists|k: int| 0 <= k && k + pattern.len() <= line.len() && #[trigger] line.subrange(
        k,
        k + pattern.len(),
    ) == pattern
}

/// Whether `pattern` occurs in `line`.
pub fn contains_chars(line: &Vec<char>, pattern: &Vec<char>) -> (r: bool)
    ensures
        r == contains_seq(line@, pattern@),
{
    let n = line.len();
    let m = pattern.len();
    if m > n {
        return false;
    }
    let mut k: usize = 0;
    while k <= n - m
        invariant
            n == line@.len(),
            m == pattern@.len(),
            m <= n,
            k <= n - m + 1,
            forall|j: int| 0 <= j < k ==> #[trigger] line@.subrange(j, j + m) != pattern@,
        decreases n - k,
    {
        let mut i: usize = 0;
        let mut same = true;
        while i < m
            invariant
                i <= m,
                k + m <= n,
                n == line@.len(),
                m == pattern@.len(),
                same == (forall|j: int| 0 <= j < i ==> line@[k + j] == pattern@[j]),
            decreases m - i,
        {
            if line[k + i] != pattern[i] {
                same = false;
            }
            i += 1;
        }
        if same {
            assert(line@.subrange(k as int, k + m) =~= pattern@);
            return true;
        }
        assert(line@.subrange(k as int, k + m) != pattern@) by {
            let j = choose|j: int| 0 <= j < m && line@[k + j] != pattern@[j];
            assert(line@.subrange(k as int, k + m)[j] != pattern@[j]);
        }
        k += 1;
    }
    proof {
        assert forall|j: int| 0 <= j && j + m <= n implies #[trigger] line@.subrange(j, j + m) != pattern@ by {}
    }
    false
}


/// `String::from_iter` over characters: the string of these characters.
#[verifier::external_body]
pub(crate) fn chars_to_string(v: &Vec<char>) -> (r: String)
    ensures
        r@ == v@,
{
    v.iter().collect()
}

/// Decimal digit character of `d`.
pub open spec fn digit_char(d: int) -> char {
    if d == 0 {
        '0'
    } else if d == 1 {
        '1'
    } else if d == 2 {
        '2'
    } else if d == 3 {
        '3'
    } else if d == 4 {
        '4'
    } else if d == 5 {
        '5'
    } else if d == 6 {
        '6'
    } else if d == 7 {
        '7'
    } else if d == 8 {
        '8'
    } else {
        '9'
    }
}

/// Decimal notation of `n`, without leading zeros.
pub open spec fn decimal(n: nat) -> Seq<char>
    decreases n,
{
    if n < 10 {
        seq![digit_char(n as int)]
    } else {
        decimal(n / 10).push(digit_char((n % 10) as int))
    }
}

fn digit(d: u64) -> (c: char)
    requires
        d < 10,
    ensures
        c == digit_char(d as int),
{
    if d == 0 {
        '0'
    } else if d == 1 {
        '1'
    } else if d == 2 {
        '2'
    } else if d == 3 {
        '3'
    } else if d == 4 {
        '4'
    } else if d == 5 {
        '5'
    } else if d == 6 {
        '6'
    } else if d == 7 {
        '7'
    } else if d == 8 {
        '8'
    } else {
        '9'
    }
}

/// Appends the decimal notation of `n`.
pub fn push_decimal(out: &mut Vec<char>, n: u64)
    ensures
        final(out)@ == old(out)@ + decimal(n as nat),
    decreases n,
{
    if n < 10 {
        out.push(digit(n));
        assert(decimal(n as nat) == seq![digit_char(n as int)]);
    } else {
        push_decimal(out, n / 10);
        out.push(digit(n % 10));
        assert(out@ =~= old(out)@ + decimal(n as nat));
    }
}

} // verus!
