//! Text as lists of characters: trimming, splitting and numbers.
use vstd::prelude::*;

verus! {

/// Whether a character is white space.
pub open spec fn is_space(c: char) -> bool {
    let n = c as int;
    ||| 0x9 <= n <= 0xd
    ||| n == 0x20
    ||| n == 0x85
    ||| n == 0xa0
    ||| n == 0x1680
    ||| 0x2000 <= n <= 0x200a
    ||| n == 0x2028
    ||| n == 0x2029
    ||| n == 0x202f
    ||| n == 0x205f
    ||| n == 0x3000
}

/// Kinds of characters.
#[derive(Copy, Clone, Eq, PartialEq, Structural, Debug)]
pub enum CharClass {
    /// White space.
    Space,
    /// What is not white space.
    Word,
    /// One character only.
    Is(char),
    /// All characters but one.
    IsNot(char),
}

impl CharClass {
    /// Whether a character is of this kind.
    pub open spec fn contains(self, c: char) -> bool {
        match self {
            CharClass::Space => is_space(c),
            CharClass::Word => !is_space(c),
            CharClass::Is(d) => c == d,
            CharClass::IsNot(d) => c != d,
        }
    }

    /// Whether a character is of this kind.
    pub fn has_char(self, c: char) -> (r: bool)
        ensures
            r == self.contains(c),
    {
        match self {
            CharClass::Space => space(c),
            CharClass::Word => !space(c),
            CharClass::Is(d) => c == d,
            CharClass::IsNot(d) => c != d,
        }
    }
}

/// Whether a character is white space.
fn space(c: char) -> (r: bool)
    ensures
        r == is_space(c),
{
    let n: u32 = c as u32;
    (0x9 <= n && n <= 0xd) || n == 0x20 || n == 0x85 || n == 0xa0 || n == 0x1680 || (0x2000 <= n
        && n <= 0x200a) || n == 0x2028 || n == 0x2029 || n == 0x202f || n == 0x205f || n == 0x3000
}

/// The text from its first character on that is not of the given kind.
pub open spec fn drop_front(s: Seq<char>, class: CharClass) -> Seq<char>
    decreases s.len(),
{
    if s.len() > 0 && class.contains(s[0]) {
        drop_front(s.skip(1), class)
    } else {
        s
    }
}

/// The text up to its last character that is not of the given kind.
pub open spec fn drop_back(s: Seq<char>, class: CharClass) -> Seq<char>
    decreases s.len(),
{
    if s.len() > 0 && class.contains(s.last()) {
        drop_back(s.drop_last(), class)
    } else {
        s
    }
}

/// The characters of the given kind at the front of a text.
pub open spec fn front(s: Seq<char>, class: CharClass) -> Seq<char> {
    s.take(s.len() - drop_front(s, class).len())
}

/// The text without white space at either end.
pub open spec fn trimmed(s: Seq<char>) -> Seq<char> {
    drop_back(drop_front(s, CharClass::Space), CharClass::Space)
}

/// Copies a part of a text.
pub fn part(s: &Vec<char>, lo: usize, hi: usize) -> (r: Vec<char>)
    requires
        lo <= hi <= s@.len(),
    ensures
        r@ == s@.subrange(lo as int, hi as int),
{
    let mut out: Vec<char> = Vec::new();
    let mut i: usize = lo;
    while i < hi
        invariant
            lo <= i <= hi <= s@.len(),
            out@ == s@.subrange(lo as int, i as int),
        decreases hi - i,
    {
        out.push(s[i]);
        assert(out@ =~= s@.subrange(lo as int, i + 1));
        i = i + 1;
    }
    out
}

/// The text from its first character on that is not of the given kind.
pub fn skip_front(s: &Vec<char>, class: CharClass) -> (r: Vec<char>)
    ensures
        r@ == drop_front(s@, class),
{
    let mut lo: usize = 0;
    assert(s@.skip(0) =~= s@);
    while lo < s.len() && class.has_char(s[lo])
        invariant
            lo <= s@.len(),
            drop_front(s@, class) == drop_front(s@.skip(lo as int), class),
        decreases s@.len() - lo,
    {
        assert(s@.skip(lo as int).skip(1) =~= s@.skip(lo + 1));
        lo = lo + 1;
    }
    assert(s@.skip(lo as int) =~= s@.subrange(lo as int, s@.len() as int));
    part(s, lo, s.len())
}

/// The text up to its last character that is not of the given kind.
pub fn skip_back(s: &Vec<char>, class: CharClass) -> (r: Vec<char>)
    ensures
        r@ == drop_back(s@, class),
{
    let mut hi: usize = s.len();
    assert(s@.take(hi as int) =~= s@);
    while hi > 0 && class.has_char(s[hi - 1])
        invariant
            hi <= s@.len(),
            drop_back(s@, class) == drop_back(s@.take(hi as int), class),
        decreases hi,
    {
        assert(s@.take(hi as int).drop_last() =~= s@.take(hi - 1));
        hi = hi - 1;
    }
    assert(s@.take(hi as int) =~= s@.subrange(0, hi as int));
    part(s, 0, hi)
}

proof fn lemma_drop_front(s: Seq<char>, class: CharClass)
    ensures
        drop_front(s, class).len() <= s.len(),
    decreases s.len(),
{
    if s.len() > 0 && class.contains(s[0]) {
        lemma_drop_front(s.skip(1), class);
    }
}

/// The characters of the given kind at the front of a text.
pub fn take_front(s: &Vec<char>, class: CharClass) -> (r: Vec<char>)
    ensures
        r@ == front(s@, class),
{
    let rest: Vec<char> = skip_front(s, class);
    proof {
        lemma_drop_front(s@, class);
    }
    let n: usize = s.len() - rest.len();
    assert(s@.take(n as int) =~= s@.subrange(0, n as int));
    part(s, 0, n)
}

/// Appends a text.
pub fn append(s: &mut Vec<char>, more: &str)
    ensures
        final(s)@ == old(s)@ + more@,
{
    let n: usize = more.unicode_len();
    let mut i: usize = 0;
    assert(s@ =~= old(s)@ + more@.take(0));
    while i < n
        invariant
            i <= n,
            n == more@.len(),
            s@ == old(s)@ + more@.take(i as int),
        decreases n - i,
    {
        s.push(more.get_char(i));
        assert(s@ =~= old(s)@ + more@.take(i + 1));
        i = i + 1;
    }
    assert(more@.take(n as int) =~= more@);
}

/// The text without white space at either end.
pub fn trim(s: &Vec<char>) -> (r: Vec<char>)
    ensures
        r@ == trimmed(s@),
{
    skip_back(&skip_front(s, CharClass::Space), CharClass::Space)
}

/// The text behind a prefix, if it has that prefix.
pub open spec fn stripped(s: Seq<char>, prefix: Seq<char>) -> Option<Seq<char>> {
    if prefix.len() <= s.len() && s.take(prefix.len() as int) == prefix {
        Some(s.skip(prefix.len() as int))
    } else {
        None
    }
}

/// The text behind a prefix, if it has that prefix.
pub fn strip_prefix(s: &Vec<char>, prefix: &str) -> (r: Option<Vec<char>>)
    ensures
        r is Some <==> stripped(s@, prefix@) is Some,
        r matches Some(rest) ==> stripped(s@, prefix@) == Some(rest@),
{
    let n: usize = prefix.unicode_len();
    if n > s.len() {
        return None;
    }
    let mut i: usize = 0;
    while i < n
        invariant
            i <= n <= s@.len(),
            n == prefix@.len(),
            forall|j: int| 0 <= j < i ==> #[trigger] s@[j] == prefix@[j],
        decreases n - i,
    {
        if s[i] != prefix.get_char(i) {
            assert(s@.take(n as int)[i as int] != prefix@[i as int]);
            return None;
        }
        i = i + 1;
    }
    assert(s@.take(n as int) =~= prefix@);
    assert(s@.skip(n as int) =~= s@.subrange(n as int, s@.len() as int));
    Some(part(s, n, s.len()))
}

/// The parts between the separators; without a separator, the text itself.
pub open spec fn parts(s: Seq<char>, separator: char) -> Seq<Seq<char>>
    decreases s.len(),
{
    if s.len() == 0 {
        seq![Seq::empty()]
    } else {
        let fewer = parts(s.drop_last(), separator);
        if s.last() == separator {
            fewer.push(Seq::empty())
        } else {
            fewer.drop_last().push(fewer.last().push(s.last()))
        }
    }
}

/// The texts in a list of texts.
pub open spec fn texts(v: Seq<Vec<char>>) -> Seq<Seq<char>> {
    Seq::new(v.len(), |i: int| v[i]@)
}

/// Splits a text at the separators.
pub fn split(s: &Vec<char>, separator: char) -> (r: Vec<Vec<char>>)
    ensures
        texts(r@) == parts(s@, separator),
        r@.len() > 0,
{
    let mut done: Vec<Vec<char>> = Vec::new();
    let mut current: Vec<char> = Vec::new();
    let mut i: usize = 0;
    assert(s@.take(0) =~= Seq::empty());
    assert(texts(done@).push(current@) =~= parts(s@.take(0), separator));
    while i < s.len()
        invariant
            i <= s@.len(),
            texts(done@).push(current@) == parts(s@.take(i as int), separator),
        decreases s@.len() - i,
    {
        let c: char = s[i];
        let ghost before = texts(done@).push(current@);
        proof {
            assert(s@.take(i + 1).drop_last() =~= s@.take(i as int));
            assert(before.drop_last() =~= texts(done@));
        }
        if c == separator {
            done.push(current);
            current = Vec::new();
            assert(texts(done@) =~= before);
            assert(current@ =~= Seq::empty());
        } else {
            current.push(c);
        }
        i = i + 1;
    }
    assert(s@.take(i as int) =~= s@);
    let ghost last = current@;
    let ghost before = texts(done@);
    done.push(current);
    assert(texts(done@) =~= before.push(last));
    done
}

/// Whether a text is made of decimal digits, and of at least one.
pub open spec fn is_digits(s: Seq<char>) -> bool {
    s.len() > 0 && forall|i: int| 0 <= i < s.len() ==> '0' <= #[trigger] s[i] <= '9'
}

/// The number with the given decimal digits.
pub open spec fn value(s: Seq<char>) -> nat
    decreases s.len(),
{
    if s.len() == 0 {
        0
    } else {
        10 * value(s.drop_last()) + (s.last() as int - '0' as int) as nat
    }
}

/// The number that a text stands for: decimal digits, with or without a plus sign before them, of a
/// number that fits in a machine word.
pub open spec fn number(s: Seq<char>) -> Option<usize> {
    let digits = if s.len() > 0 && s[0] == '+' {
        s.skip(1)
    } else {
        s
    };
    if is_digits(digits) && value(digits) <= usize::MAX {
        Some(value(digits) as usize)
    } else {
        None
    }
}

/// A number is no smaller than the number of its first digits.
proof fn lemma_value_grows(s: Seq<char>, n: int)
    requires
        0 <= n <= s.len(),
        is_digits(s),
    ensures
        value(s.take(n)) <= value(s),
    decreases s.len() - n,
{
    if n == s.len() {
        assert(s.take(n) =~= s);
    } else {
        lemma_value_grows(s, n + 1);
        assert(s.take(n + 1).drop_last() =~= s.take(n));
    }
}

/// The number that a text stands for.
pub fn parse_number(s: &Vec<char>) -> (r: Option<usize>)
    ensures
        r == number(s@),
{
    let first: usize = if s.len() > 0 && s[0] == '+' {
        1
    } else {
        0
    };
    let ghost digits = s@.skip(first as int);
    assert(first == 0 ==> digits =~= s@);
    if s.len() == first {
        return None;
    }
    let mut total: usize = 0;
    let mut i: usize = first;
    assert(digits.take(0) =~= Seq::empty());
    while i < s.len()
        invariant
            first <= i <= s@.len(),
            first <= 1,
            digits == s@.skip(first as int),
            number(s@) == (if is_digits(digits) && value(digits) <= usize::MAX {
                Some(value(digits) as usize)
            } else {
                None
            }),
            forall|j: int| 0 <= j < i - first ==> '0' <= #[trigger] digits[j] <= '9',
            total == value(digits.take(i - first)),
        decreases s@.len() - i,
    {
        let c: char = s[i];
        assert(digits[i - first] == c);
        if c < '0' || c > '9' {
            return None;
        }
        let d: usize = (c as u32 - '0' as u32) as usize;
        proof {
            assert(digits.take(i + 1 - first).drop_last() =~= digits.take(i - first));
            assert(value(digits.take(i + 1 - first)) == 10 * total + d);
            if is_digits(digits) {
                lemma_value_grows(digits, i + 1 - first);
            }
        }
        if total > usize::MAX / 10 {
            return None;
        }
        let tens: usize = 10 * total;
        if tens > usize::MAX - d {
            return None;
        }
        total = tens + d;
        i = i + 1;
    }
    assert(digits.take(i - first) =~= digits);
    Some(total)
}

} // verus!
