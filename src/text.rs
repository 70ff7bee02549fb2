use vstd::prelude::*;

verus! {

/// Position of the last `.` in `s`, or -1 when there is none.
pub open spec fn last_dot(s: Seq<char>) -> int
    decreases s.len(),
{
    if s.len() == 0 {
        -1
    } else if s.last() == '.' {
        s.len() - 1
    } else {
        last_dot(s.drop_last())
    }
}

/// The text after the last `.`, or all of `s` when it has no dot.
pub open spec fn last_segment(s: Seq<char>) -> Seq<char> {
    s.subrange(last_dot(s) + 1, s.len() as int)
}

/// The text before the last `.`, when `s` has one.
pub open spec fn before_last_dot(s: Seq<char>) -> Option<Seq<char>> {
    if last_dot(s) >= 0 {
        Some(s.subrange(0, last_dot(s)))
    } else {
        None
    }
}

pub open spec fn has_dot(s: Seq<char>) -> bool {
    exists|i: int| 0 <= i < s.len() && s[i] == '.'
}

/// `a.b`
pub open spec fn dotted(a: Seq<char>, b: Seq<char>) -> Seq<char> {
    a + seq!['.'] + b
}

pub proof fn lemma_last_dot_bounds(s: Seq<char>)
    ensures
        -1 <= last_dot(s) < s.len(),
        last_dot(s) >= 0 ==> s[last_dot(s)] == '.',
        forall|i: int| last_dot(s) < i < s.len() ==> s[i] != '.',
        has_dot(s) <==> last_dot(s) >= 0,
    decreases s.len(),
{
    if s.len() > 0 && s.last() != '.' {
        lemma_last_dot_bounds(s.drop_last());
        assert forall|i: int| last_dot(s) < i < s.len() implies s[i] != '.' by {
            if i < s.len() - 1 {
                assert(s[i] == s.drop_last()[i]);
            }
        }
        if has_dot(s) {
            let i = choose|i: int| 0 <= i < s.len() && s[i] == '.';
            assert(s.drop_last()[i] == '.');
        }
        if last_dot(s) >= 0 {
            assert(s.drop_last()[last_dot(s)] == '.');
        }
    }
}

/// The characters of `s`, in order.
pub fn chars_of(s: &str) -> (r: Vec<char>)
    ensures
        r@ == s@,
{
    let mut v: Vec<char> = Vec::new();
    for c in it: s.chars()
        invariant
            v@ == it.seq().take(it.index() as int),
    {
        v.push(c);
    }
    v
}

/// Whether two character sequences are equal.
pub fn same_chars(a: &Vec<char>, b: &Vec<char>) -> (r: bool)
    ensures
        r == (a@ == b@),
{
    if a.len() != b.len() {
        return false;
    }
    for i in 0..a.len()
        invariant
            a.len() == b.len(),
            forall|j: int| 0 <= j < i ==> a@[j] == b@[j],
    {
        if a[i] != b[i] {
            return false;
        }
    }
    assert(a@ == b@);
    true
}

/// Whether two strings hold the same text.
pub fn same_text(a: &str, b: &str) -> (r: bool)
    ensures
        r == (a@ == b@),
{
    same_chars(&chars_of(a), &chars_of(b))
}

pub open spec fn digit_char(d: nat) -> char {
    if d == 0 {
        '0'
    } else if d == 1 {
        '1'
    } else if d == 2 {
        '2'
    } else if d == 3 {
        '3'
    } else if d == 4 {
        '4'
    } else if d == 5 {
        '5'
    } else if d == 6 {
        '6'
    } else if d == 7 {
        '7'
    } else if d == 8 {
        '8'
    } else {
        '9'
    }
}

/// The decimal digits of `n`, most significant first.
pub open spec fn decimal(n: nat) -> Seq<char>
    decreases n,
{
    if n < 10 {
        seq![digit_char(n)]
    } else {
        decimal(n / 10).push(digit_char(n % 10))
    }
}

fn digit_of(d: usize) -> (c: char)
    requires
        d < 10,
    ensures
        c == digit_char(d as nat),
{
    if d == 0 {
        '0'
    } else if d == 1 {
        '1'
    } else if d == 2 {
        '2'
    } else if d == 3 {
        '3'
    } else if d == 4 {
        '4'
    } else if d == 5 {
        '5'
    } else if d == 6 {
        '6'
    } else if d == 7 {
        '7'
    } else if d == 8 {
        '8'
    } else {
        '9'
    }
}

/// `n` written in decimal.
pub fn decimal_string(n: usize) -> (r: String)
    ensures
        r@ == decimal(n as nat),
    decreases n,
{
    if n < 10 {
        let mut s = String::new();
        push_char(&mut s, digit_of(n));
        s
    } else {
        let mut s = decimal_string(n / 10);
        push_char(&mut s, digit_of(n % 10));
        s
    }
}

/// Appends `b` to `a`.
pub fn append_text(a: &mut String, b: &str)
    ensures
        final(a)@ == old(a)@ + b@,
{
    a.append(b);
}

/// Relies on `String::push`: appends one character.
#[verifier::external_body]
fn push_char(s: &mut String, c: char)
    ensures
        final(s)@ == old(s)@.push(c),
{
    s.push(c)
}

/// The string made of `chars[from..to]`.
pub fn string_of(chars: &Vec<char>, from: usize, to: usize) -> (r: String)
    requires
        from <= to <= chars.len(),
    ensures
        r@ == chars@.subrange(from as int, to as int),
{
    let mut r = String::new();
    let mut i = from;
    while i < to
        invariant
            from <= i <= to <= chars.len(),
            r@ == chars@.subrange(from as int, i as int),
        decreases to - i,
    {
        push_char(&mut r, chars[i]);
        assert(chars@.subrange(from as int, i + 1) == chars@.subrange(from as int, i as int).push(
            chars@[i as int],
        ));
        i = i + 1;
    }
    r
}

/// Index of the last `.` of `chars`.
pub fn find_last_dot(chars: &Vec<char>) -> (r: Option<usize>)
    ensures
        match r {
            Some(i) => i == last_dot(chars@),
            None => last_dot(chars@) == -1,
        },
{
    proof {
        lemma_last_dot_bounds(chars@);
    }
    let mut i = chars.len();
    while i > 0
        invariant
            i <= chars.len(),
            forall|k: int| i <= k < chars.len() ==> chars@[k] != '.',
            -1 <= last_dot(chars@) < chars.len(),
            last_dot(chars@) >= 0 ==> chars@[last_dot(chars@)] == '.',
            forall|k: int| last_dot(chars@) < k < chars.len() ==> chars@[k] != '.',
        decreases i,
    {
        if chars[i - 1] == '.' {
            return Some(i - 1);
        }
        i = i - 1;
    }
    None
}

/// The text after the last `.` of `s` (all of `s` when it has none).
pub fn last_segment_of(s: &str) -> (r: String)
    ensures
        r@ == last_segment(s@),
{
    let chars = chars_of(s);
    let n = chars.len();
    proof {
        lemma_last_dot_bounds(s@);
    }
    let start = match find_last_dot(&chars) {
        Some(i) => {
            assert(i < n);
            i + 1
        },
        None => 0,
    };
    string_of(&chars, start, n)
}

/// The text before the last `.` of `s`, if it has one.
pub fn before_last_dot_of(s: &str) -> (r: Option<String>)
    ensures
        match r {
            Some(p) => before_last_dot(s@) == Some(p@),
            None => before_last_dot(s@) is None,
        },
{
    let chars = chars_of(s);
    proof {
        lemma_last_dot_bounds(s@);
    }
    match find_last_dot(&chars) {
        Some(i) => Some(string_of(&chars, 0, i)),
        None => None,
    }
}

/// Whether `s` holds a `.`.
pub fn contains_dot(s: &str) -> (r: bool)
    ensures
        r == has_dot(s@),
{
    let chars = chars_of(s);
    proof {
        lemma_last_dot_bounds(s@);
    }
    find_last_dot(&chars).is_some()
}

/// `a.b`
pub fn join_dotted(a: &str, b: &str) -> (r: String)
    ensures
        r@ == dotted(a@, b@),
{
    let mut r = a.to_owned();
    push_char(&mut r, '.');
    r.append(b);
    r
}

} // verus!

verus! {

/// The characters with the Unicode `White_Space` property.
pub open spec fn is_white(c: char) -> bool {
    ||| '\u{9}' <= c <= '\u{d}'
    ||| c == ' '
    ||| c == '\u{85}'
    ||| c == '\u{a0}'
    ||| c == '\u{1680}'
    ||| '\u{2000}' <= c <= '\u{200a}'
    ||| c == '\u{2028}'
    ||| c == '\u{2029}'
    ||| c == '\u{202f}'
    ||| c == '\u{205f}'
    ||| c == '\u{3000}'
}

pub fn white(c: char) -> (r: bool)
    ensures
        r == is_white(c),
{
    ('\u{9}' <= c && c <= '\u{d}') || c == ' ' || c == '\u{85}' || c == '\u{a0}' || c == '\u{1680}'
        || ('\u{2000}' <= c && c <= '\u{200a}') || c == '\u{2028}' || c == '\u{2029}' || c
        == '\u{202f}' || c == '\u{205f}' || c == '\u{3000}'
}

/// Index of the first character of `s` that is not white space, from `from`.
pub open spec fn skip_white(s: Seq<char>, from: int) -> int
    decreases s.len() - from,
{
    if from >= s.len() || from < 0 {
        from
    } else if is_white(s[from]) {
        skip_white(s, from + 1)
    } else {
        from
    }
}

/// One past the last character of `s[..to]` that is not white space.
pub open spec fn trim_end_at(s: Seq<char>, to: int) -> int
    decreases to,
{
    if to <= 0 || to > s.len() {
        if to > s.len() { s.len() as int } else { 0 }
    } else if is_white(s[to - 1]) {
        trim_end_at(s, to - 1)
    } else {
        to
    }
}

/// Index of the first `c` in `s`, or its length.
pub open spec fn first_index_of(s: Seq<char>, c: char, from: int) -> int
    decreases s.len() - from,
{
    if from >= s.len() || from < 0 {
        s.len() as int
    } else if s[from] == c {
        from
    } else {
        first_index_of(s, c, from + 1)
    }
}

pub uninterp spec fn uppercase_char(c: char) -> bool;

/// Relies on `char::is_uppercase`: the Unicode `Uppercase` property of `c`.
#[verifier::external_body]
fn is_uppercase(c: char) -> (r: bool)
    ensures
        r == uppercase_char(c),
{
    c.is_uppercase()
}

/// The text before the first `<`, with white space trimmed at both ends.
pub open spec fn simple_type_name(s: Seq<char>) -> Seq<char> {
    let cut = first_index_of(s, '<', 0);
    let head = s.take(cut);
    let b = skip_white(head, 0);
    let e = trim_end_at(head, head.len() as int);
    if b < e {
        head.subrange(b, e)
    } else {
        seq![]
    }
}

proof fn lemma_first_index_bounds(s: Seq<char>, c: char, from: int)
    requires
        0 <= from <= s.len(),
    ensures
        from <= first_index_of(s, c, from) <= s.len(),
    decreases s.len() - from,
{
    if from < s.len() && s[from] != c {
        lemma_first_index_bounds(s, c, from + 1);
    }
}

proof fn lemma_skip_white_bounds(s: Seq<char>, from: int)
    requires
        0 <= from <= s.len(),
    ensures
        from <= skip_white(s, from) <= s.len(),
    decreases s.len() - from,
{
    if from < s.len() && is_white(s[from]) {
        lemma_skip_white_bounds(s, from + 1);
    }
}

proof fn lemma_trim_end_bounds(s: Seq<char>, to: int)
    requires
        0 <= to <= s.len(),
    ensures
        0 <= trim_end_at(s, to) <= to,
    decreases to,
{
    if to > 0 && is_white(s[to - 1]) {
        lemma_trim_end_bounds(s, to - 1);
    }
}

/// The name of a written type (`Foo` of `Foo<Bar>`) and whether it starts
/// with an uppercase letter.
pub fn type_name_of(s: &str) -> (r: (String, bool))
    ensures
        r.0@ == simple_type_name(s@),
        r.1 == (r.0@.len() > 0 && uppercase_char(r.0@[0])),
{
    let chars = chars_of(s);
    let mut cut: usize = 0;
    while cut < chars.len() && chars[cut] != '<'
        invariant
            cut <= chars@.len(),
            chars@ == s@,
            first_index_of(chars@, '<', 0) == first_index_of(chars@, '<', cut as int),
        decreases chars@.len() - cut,
    {
        cut = cut + 1;
    }
    let ghost head = chars@.take(cut as int);
    proof {
        lemma_first_index_bounds(chars@, '<', 0);
    }
    let mut b: usize = 0;
    while b < cut && white(chars[b])
        invariant
            b <= cut <= chars@.len(),
            head == chars@.take(cut as int),
            skip_white(head, 0) == skip_white(head, b as int),
        decreases cut - b,
    {
        b = b + 1;
    }
    let mut e: usize = cut;
    while e > 0 && white(chars[e - 1])
        invariant
            e <= cut <= chars@.len(),
            head == chars@.take(cut as int),
            trim_end_at(head, head.len() as int) == trim_end_at(head, e as int),
        decreases e,
    {
        e = e - 1;
    }
    let name = if b < e {
        assert(head.subrange(b as int, e as int) == chars@.subrange(b as int, e as int));
        string_of(&chars, b, e)
    } else {
        String::new()
    };
    let upper = if b < e {
        assert(name@[0] == chars@[b as int]);
        is_uppercase(chars[b])
    } else {
        false
    };
    (name, upper)
}

} // verus!

