//! Reading send times out of timing messages: words and decimal integers.
use vstd::prelude::*;

verus! {

/// Whether `c` has the Unicode `White_Space` property, as `char::is_whitespace`
/// tests.
pub open spec fn is_white_space(c: char) -> bool {
    let u = c as u32;
    ||| 0x09 <= u <= 0x0d
    ||| u == 0x20
    ||| u == 0x85
    ||| u == 0xa0
    ||| u == 0x1680
    ||| 0x2000 <= u <= 0x200a
    ||| u == 0x2028
    ||| u == 0x2029
    ||| u == 0x202f
    ||| u == 0x205f
    ||| u == 0x3000
}

/// Whether `c` is white space (see [`is_white_space`]).
pub fn white_space(c: char) -> (b: bool)
    ensures
        b == is_white_space(c),
{
    let u = c as u32;
    (0x09 <= u && u <= 0x0d) || u == 0x20 || u == 0x85 || u == 0xa0 || u == 0x1680
        || (0x2000 <= u && u <= 0x200a) || u == 0x2028 || u == 0x2029 || u == 0x202f
        || u == 0x205f || u == 0x3000
}

/// Scanning `s` from the left: the words finished so far, and the word in
/// progress.
pub open spec fn scan_words(s: Seq<char>) -> (Seq<Seq<char>>, Seq<char>)
    decreases s.len(),
{
    if s.len() == 0 {
        (Seq::empty(), Seq::empty())
    } else {
        let (done, current) = scan_words(s.drop_last());
        if is_white_space(s.last()) {
            if current.len() > 0 {
                (done.push(current), Seq::empty())
            } else {
                (done, Seq::empty())
            }
        } else {
            (done, current.push(s.last()))
        }
    }
}

/// The maximal runs of non-white-space characters of `s`, in order, as
/// `str::split_whitespace` gives them.
pub open spec fn words(s: Seq<char>) -> Seq<Seq<char>> {
    let (done, current) = scan_words(s);
    if current.len() > 0 {
        done.push(current)
    } else {
        done
    }
}

/// Whether `c` is an ASCII decimal digit.
pub open spec fn is_digit(c: char) -> bool {
    '0' <= c <= '9'
}

/// The number that the decimal digits `d` write.
pub open spec fn digits_value(d: Seq<char>) -> nat
    decreases d.len(),
{
    if d.len() == 0 {
        0
    } else {
        digits_value(d.drop_last()) * 10 + ((d.last() as u32) - ('0' as u32)) as nat
    }
}

/// `s` without its leading sign, if it has one.
pub open spec fn unsigned_part(s: Seq<char>) -> Seq<char> {
    if s.len() > 0 && (s[0] == '-' || s[0] == '+') {
        s.drop_first()
    } else {
        s
    }
}

/// Whether every character of `d` is a decimal digit.
pub open spec fn all_digits(d: Seq<char>) -> bool {
    forall|i: int| 0 <= i < d.len() ==> is_digit(#[trigger] d[i])
}

/// The `i64` that `s` writes as `str::parse::<i64>` reads it: an optional
/// `+` or `-`, then one or more decimal digits, and a value in range.
pub open spec fn parsed_i64(s: Seq<char>) -> Option<i64> {
    let negative = s.len() > 0 && s[0] == '-';
    let digits = unsigned_part(s);
    if digits.len() == 0 || !all_digits(digits) {
        None
    } else if negative {
        if digits_value(digits) <= 0x8000_0000_0000_0000 {
            Some((-digits_value(digits)) as i64)
        } else {
            None
        }
    } else if digits_value(digits) <= 0x7fff_ffff_ffff_ffff {
        Some(digits_value(digits) as i64)
    } else {
        None
    }
}

proof fn lemma_digits_value_prefix(d: Seq<char>, i: int)
    requires
        0 <= i <= d.len(),
    ensures
        digits_value(d.take(i)) <= digits_value(d),
    decreases d.len(),
{
    if i < d.len() {
        assert(d.drop_last().take(i) =~= d.take(i));
        lemma_digits_value_prefix(d.drop_last(), i);
    } else {
        assert(d.take(i) =~= d);
    }
}

/// Reads `s` as `str::parse::<i64>` does (see [`parsed_i64`]).
pub fn parse_i64(s: &Vec<char>) -> (r: Option<i64>)
    ensures
        r == parsed_i64(s@),
{
    let n = s.len();
    if n == 0 {
        return None;
    }
    let negative = s[0] == '-';
    let start: usize = if s[0] == '-' || s[0] == '+' { 1 } else { 0 };
    let ghost digits = unsigned_part(s@);
    assert(digits =~= s@.subrange(start as int, n as int));
    if start == n {
        return None;
    }
    let mut acc: i64 = 0;
    let mut i: usize = start;
    assert(digits.take(0) =~= Seq::<char>::empty());
    while i < n
        invariant
            digits =~= s@.subrange(start as int, n as int),
            digits == unsigned_part(s@),
            start <= i <= n,
            n == s@.len(),
            forall|j: int| 0 <= j < i - start ==> is_digit(#[trigger] digits[j]),
            negative ==> acc == -digits_value(digits.take(i - start)),
            !negative ==> acc == digits_value(digits.take(i - start)),
            negative == (s@[0] == '-'),
        decreases n - i,
    {
        let c = s[i];
        assert(c == digits[i - start]);
        if !('0' <= c && c <= '9') {
            assert(!all_digits(digits)) by {
                assert(!is_digit(digits[i - start]));
            }
            return None;
        }
        let d = (c as u32 - '0' as u32) as i64;
        let ghost k = (i - start) as int;
        assert(digits.take(k + 1).drop_last() =~= digits.take(k));
        assert(digits.take(k + 1).last() == c);
        let next = if negative {
            match acc.checked_mul(10) {
                Some(t) => t.checked_sub(d),
                None => None,
            }
        } else {
            match acc.checked_mul(10) {
                Some(t) => t.checked_add(d),
                None => None,
            }
        };
        match next {
            Some(v) => {
                acc = v;
            },
            None => {
                proof {
                    lemma_digits_value_prefix(digits, k + 1);
                    let v1 = digits_value(digits.take(k + 1));
                    assert(v1 == digits_value(digits.take(k)) * 10 + d);
                    if negative {
                        assert(v1 > 0x8000_0000_0000_0000);
                    } else {
                        assert(v1 > 0x7fff_ffff_ffff_ffff);
                    }
                    assert(digits_value(digits) >= v1);
                    assert(parsed_i64(s@) is None);
                }
                return None;
            },
        }
        i = i + 1;
    }
    assert(digits.take(n - start) =~= digits);
    Some(acc)
}

/// The views of a sequence of character vectors.
pub open spec fn char_views(v: Seq<Vec<char>>) -> Seq<Seq<char>> {
    v.map_values(|w: Vec<char>| w@)
}

/// The words of `s` (see [`words`]).
pub fn split_words(s: &Vec<char>) -> (ws: Vec<Vec<char>>)
    ensures
        char_views(ws@) == words(s@),
{
    let mut done: Vec<Vec<char>> = Vec::new();
    let mut current: Vec<char> = Vec::new();
    let mut i: usize = 0;
    assert(s@.take(0) =~= Seq::<char>::empty());
    assert(char_views(done@) =~= Seq::<Seq<char>>::empty());
    while i < s.len()
        invariant
            i <= s.len(),
            (char_views(done@), current@) == scan_words(s@.take(i as int)),
        decreases s.len() - i,
    {
        let c = s[i];
        assert(s@.take(i as int + 1).drop_last() =~= s@.take(i as int));
        assert(s@.take(i as int + 1).last() == c);
        if white_space(c) {
            if current.len() > 0 {
                let ghost before = char_views(done@);
                let ghost word = current@;
                done.push(current);
                assert(char_views(done@) =~= before.push(word));
                current = Vec::new();
            }
        } else {
            current.push(c);
        }
        i = i + 1;
    }
    assert(s@.take(s.len() as int) =~= s@);
    if current.len() > 0 {
        let ghost before = char_views(done@);
        let ghost word = current@;
        done.push(current);
        assert(char_views(done@) =~= before.push(word));
    }
    done
}

/// The numbers that the words of `ws` write, in order, skipping words that
/// are not numbers.
pub open spec fn numbers_in(ws: Seq<Seq<char>>) -> Seq<i64>
    decreases ws.len(),
{
    if ws.len() == 0 {
        Seq::empty()
    } else {
        let rest = numbers_in(ws.drop_last());
        match parsed_i64(ws.last()) {
            Some(v) => rest.push(v),
            None => rest,
        }
    }
}

/// The send times that a timing message carries: the whole text if it is a
/// number, else each word of it that is a number.
pub open spec fn sent_times(data: Seq<char>) -> Seq<i64> {
    match parsed_i64(data) {
        Some(v) => seq![v],
        None => numbers_in(words(data)),
    }
}

/// The characters of `s`, in order.
pub fn chars_of(s: &str) -> (v: Vec<char>)
    ensures
        v@ == s@,
{
    let mut v: Vec<char> = Vec::new();
    for c in iter: s.chars()
        invariant
            v@ == iter.seq().take(iter.index() as int),
    {
        v.push(c);
    }
    v
}

/// The send times in the text of a timing message (see [`sent_times`]).
pub fn sent_timestamps(data: &String) -> (times: Vec<i64>)
    ensures
        times@ == sent_times(data@),
{
    let chars = chars_of(data.as_str());
    match parse_i64(&chars) {
        Some(v) => {
            let mut times = Vec::new();
            times.push(v);
            assert(times@ =~= seq![v]);
            times
        },
        None => {
            let ws = split_words(&chars);
            let mut times: Vec<i64> = Vec::new();
            let mut i: usize = 0;
            assert(char_views(ws@).take(0) =~= Seq::<Seq<char>>::empty());
            while i < ws.len()
                invariant
                    i <= ws.len(),
                    char_views(ws@) == words(data@),
                    times@ == numbers_in(char_views(ws@).take(i as int)),
                decreases ws.len() - i,
            {
                let ghost prefix = char_views(ws@).take(i as int + 1);
                assert(prefix.drop_last() =~= char_views(ws@).take(i as int));
                assert(prefix.last() == ws@[i as int]@);
                match parse_i64(&ws[i]) {
                    Some(v) => times.push(v),
                    None => {},
                }
                i = i + 1;
            }
            assert(char_views(ws@).take(ws.len() as int) =~= char_views(ws@));
            times
        },
    }
}

} // verus!
