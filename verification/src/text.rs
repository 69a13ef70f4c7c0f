//! Text building blocks the messages share: decimal spelling of counts and
//! joining names with a separator.
use vstd::prelude::*;
use vstd::std_specs::iter::IteratorSpec;

verus! {

/// The decimal digit `d` (`0 ≤ d < 10`).
pub open spec fn digit_char(d: nat) -> char {
    if d == 0 {
        '0'
    } else if d == 1 {
        '1'
    } else if d == 2 {
        '2'
    } else if d == 3 {
        '3'
    } else if d == 4 {
        '4'
    } else if d == 5 {
        '5'
    } else if d == 6 {
        '6'
    } else if d == 7 {
        '7'
    } else if d == 8 {
        '8'
    } else {
        '9'
    }
}

/// `n` in decimal, without leading zeros (`0` is `"0"`).
pub open spec fn decimal(n: nat) -> Seq<char>
    decreases n,
{
    if n < 10 {
        seq![digit_char(n)]
    } else {
        decimal(n / 10).push(digit_char(n % 10))
    }
}

/// `parts` joined by `sep`.
pub open spec fn joined(parts: Seq<Seq<char>>, sep: Seq<char>) -> Seq<char>
    decreases parts.len(),
{
    if parts.len() == 0 {
        Seq::empty()
    } else if parts.len() == 1 {
        parts[0]
    } else {
        joined(parts.drop_last(), sep) + sep + parts.last()
    }
}

fn digit_str(d: u64) -> (s: &'static str)
    requires
        d < 10,
    ensures
        s@ == seq![digit_char(d as nat)],
{
    proof {
        reveal_strlit("0");
        reveal_strlit("1");
        reveal_strlit("2");
        reveal_strlit("3");
        reveal_strlit("4");
        reveal_strlit("5");
        reveal_strlit("6");
        reveal_strlit("7");
        reveal_strlit("8");
        reveal_strlit("9");
    }
    let s = if d == 0 {
        "0"
    } else if d == 1 {
        "1"
    } else if d == 2 {
        "2"
    } else if d == 3 {
        "3"
    } else if d == 4 {
        "4"
    } else if d == 5 {
        "5"
    } else if d == 6 {
        "6"
    } else if d == 7 {
        "7"
    } else if d == 8 {
        "8"
    } else {
        "9"
    };
    assert(s@ =~= seq![digit_char(d as nat)]);
    s
}

/// Append `n` in decimal to `out`.
pub fn push_decimal(out: &mut String, n: u64)
    ensures
        final(out)@ == old(out)@ + decimal(n as nat),
    decreases n,
{
    if n < 10 {
        out.append(digit_str(n));
    } else {
        push_decimal(out, n / 10);
        out.append(digit_str(n % 10));
    }
}

/// `n` in decimal.
pub fn decimal_string(n: u64) -> (s: String)
    ensures
        s@ == decimal(n as nat),
{
    let mut s = String::new();
    push_decimal(&mut s, n);
    assert(s@ =~= decimal(n as nat));
    s
}

/// The strings joined by `sep`.
pub fn join(parts: &Vec<String>, sep: &str) -> (s: String)
    ensures
        s@ == joined(parts@.map_values(|p: String| p@), sep@),
{
    let ghost views = parts@.map_values(|p: String| p@);
    let mut s = String::new();
    let mut k: usize = 0;
    while k < parts.len()
        invariant
            0 <= k <= parts@.len(),
            views == parts@.map_values(|p: String| p@),
            s@ == joined(views.subrange(0, k as int), sep@),
        decreases parts@.len() - k,
    {
        if k > 0 {
            s.append(sep);
        }
        s.append(parts[k].as_str());
        proof {
            let next = views.subrange(0, k + 1);
            assert(next.drop_last() =~= views.subrange(0, k as int));
            if k == 0 {
                assert(s@ =~= joined(next, sep@));
            }
        }
        k = k + 1;
    }
    assert(views.subrange(0, views.len() as int) =~= views);
    s
}

/// Do two texts read the same?
pub fn same_text(a: &str, b: &str) -> (same: bool)
    ensures
        same == (a@ == b@),
{
    let x = a.as_bytes();
    let y = b.as_bytes();
    proof {
        vstd::utf8::encode_utf8_decode_utf8(a@);
        vstd::utf8::encode_utf8_decode_utf8(b@);
    }
    if x.len() != y.len() {
        return false;
    }
    let mut i: usize = 0;
    while i < x.len()
        invariant
            0 <= i <= x@.len(),
            x@.len() == y@.len(),
            x@ == vstd::utf8::encode_utf8(a@),
            y@ == vstd::utf8::encode_utf8(b@),
            forall|j: int| 0 <= j < i ==> x@[j] == y@[j],
        decreases x@.len() - i,
    {
        if x[i] != y[i] {
            return false;
        }
        i += 1;
    }
    assert(x@ =~= y@);
    true
}

/// Append one character (`String::push`).
#[verifier::external_body]
pub(crate) fn push_char(text: &mut String, c: char)
    ensures
        final(text)@ == old(text)@.push(c),
{
    text.push(c)
}

/// The characters of `text`, in order.
pub fn chars_of(text: &str) -> (chars: Vec<char>)
    ensures
        chars@ == text@,
{
    let mut it = text.chars();
    let mut chars: Vec<char> = Vec::new();
    proof {
        broadcast use vstd::string::axiom_spec_iter;
    }
    loop
        invariant
            chars@.len() <= text@.len(),
            it.remaining() == text@.skip(chars@.len() as int),
            chars@ == text@.take(chars@.len() as int),
            it.obeys_prophetic_iter_laws(),
        ensures
            chars@ == text@,
        decreases text@.len() - chars@.len(),
    {
        let ghost before = it.remaining();
        let next = it.next();
        proof {
            broadcast use vstd::string::next_postcondition;
        }
        match next {
            Some(c) => {
                assert(before.len() > 0);
                assert(c == text@[chars@.len() as int]);
                chars.push(c);
                assert(text@.skip(chars@.len() as int) =~= before.drop_first());
                assert(chars@ =~= text@.take(chars@.len() as int));
            },
            None => {
                assert(chars@ =~= text@);
                break;
            },
        }
    }
    chars
}

/// The text made of `chars`.
pub fn string_of(chars: &[char]) -> (text: String)
    ensures
        text@ == chars@,
{
    let mut text = String::new();
    let mut i: usize = 0;
    while i < chars.len()
        invariant
            0 <= i <= chars@.len(),
            text@ == chars@.take(i as int),
        decreases chars@.len() - i,
    {
        push_char(&mut text, chars[i]);
        assert(text@ =~= chars@.take(i + 1));
        i += 1;
    }
    assert(chars@.take(chars@.len() as int) =~= chars@);
    text
}

/// Does `chars` hold `c`?
pub fn holds_char(chars: &[char], c: char) -> (found: bool)
    ensures
        found == chars@.contains(c),
{
    let mut i: usize = 0;
    while i < chars.len()
        invariant
            0 <= i <= chars@.len(),
            forall|j: int| 0 <= j < i ==> chars@[j] != c,
        decreases chars@.len() - i,
    {
        if chars[i] == c {
            assert(chars@[i as int] == c);
            return true;
        }
        i += 1;
    }
    false
}

/// `s` cut at every `sep`, empty pieces kept (`""` is one empty piece,
/// `"a/"` is `"a"` and `""`), as `str::split` cuts it.
pub open spec fn split_on(s: Seq<char>, sep: char) -> Seq<Seq<char>>
    decreases s.len(),
{
    if s.len() == 0 {
        seq![Seq::empty()]
    } else {
        let pieces = split_on(s.drop_last(), sep);
        if s.last() == sep {
            pieces.push(Seq::empty())
        } else {
            pieces.update(pieces.len() - 1, pieces.last().push(s.last()))
        }
    }
}

/// Cutting always leaves at least one piece.
pub proof fn lemma_split_nonempty(s: Seq<char>, sep: char)
    ensures
        split_on(s, sep).len() >= 1,
    decreases s.len(),
{
    if s.len() > 0 {
        lemma_split_nonempty(s.drop_last(), sep);
    }
}

/// The pieces of `chars` between the `sep`s.
pub fn split_chars(chars: &[char], sep: char) -> (pieces: Vec<Vec<char>>)
    ensures
        pieces@.map_values(|p: Vec<char>| p@) == split_on(chars@, sep),
{
    let mut pieces: Vec<Vec<char>> = Vec::new();
    let mut current: Vec<char> = Vec::new();
    let mut i: usize = 0;
    assert(chars@.take(0) =~= Seq::<char>::empty());
    while i < chars.len()
        invariant
            0 <= i <= chars@.len(),
            pieces@.map_values(|p: Vec<char>| p@).push(current@) == split_on(
                chars@.take(i as int),
                sep,
            ),
        decreases chars@.len() - i,
    {
        let c = chars[i];
        let ghost before = split_on(chars@.take(i as int), sep);
        proof {
            assert(chars@.take(i + 1).drop_last() =~= chars@.take(i as int));
            assert(chars@.take(i + 1).last() == c);
            lemma_split_nonempty(chars@.take(i as int), sep);
        }
        if c == sep {
            let done = current;
            pieces.push(done);
            current = Vec::new();
            assert(pieces@.map_values(|p: Vec<char>| p@).push(current@) =~= before.push(
                Seq::empty(),
            ));
        } else {
            current.push(c);
            assert(pieces@.map_values(|p: Vec<char>| p@).push(current@) =~= before.update(
                before.len() - 1,
                before.last().push(c),
            ));
        }
        i += 1;
    }
    assert(chars@.take(chars@.len() as int) =~= chars@);
    pieces.push(current);
    pieces
}

/// Do two runs of characters read the same?
pub fn same_chars(a: &[char], b: &[char]) -> (same: bool)
    ensures
        same == (a@ == b@),
{
    if a.len() != b.len() {
        return false;
    }
    let mut i: usize = 0;
    while i < a.len()
        invariant
            0 <= i <= a@.len(),
            a@.len() == b@.len(),
            forall|j: int| 0 <= j < i ==> a@[j] == b@[j],
        decreases a@.len() - i,
    {
        if a[i] != b[i] {
            return false;
        }
        i += 1;
    }
    assert(a@ =~= b@);
    true
}

/// `n` in decimal, with a `-` before a negative number.
pub open spec fn signed_decimal(n: int) -> Seq<char> {
    if n < 0 {
        seq!['-'] + decimal((-n) as nat)
    } else {
        decimal(n as nat)
    }
}

/// Append `n` in decimal, with a `-` before a negative number.
pub fn push_signed_decimal(out: &mut String, n: i32)
    ensures
        final(out)@ == old(out)@ + signed_decimal(n as int),
{
    if n < 0 {
        out.append("-");
        proof {
            reveal_strlit("-");
        }
        let magnitude: u64 = (0 - (n as i64)) as u64;
        push_decimal(out, magnitude);
    } else {
        push_decimal(out, n as u64);
    }
}

/// Append a 64-bit `n` in decimal, with a `-` before a negative number.
pub fn push_signed_decimal_long(out: &mut String, n: i64)
    ensures
        final(out)@ == old(out)@ + signed_decimal(n as int),
{
    if n < 0 {
        out.append("-");
        proof {
            reveal_strlit("-");
        }
        let magnitude: u128 = (0 - (n as i128)) as u128;
        push_decimal_wide(out, magnitude);
    } else {
        push_decimal_wide(out, n as u128);
    }
}

/// Where `c` first occurs in `s`.
pub open spec fn first_index(s: Seq<char>, c: char) -> Option<int>
    decreases s.len(),
{
    if s.len() == 0 {
        None
    } else if s[0] == c {
        Some(0)
    } else {
        match first_index(s.drop_first(), c) {
            Some(i) => Some(i + 1),
            None => None,
        }
    }
}

/// Where `c` last occurs in `s`.
pub open spec fn last_index(s: Seq<char>, c: char) -> Option<int>
    decreases s.len(),
{
    if s.len() == 0 {
        None
    } else if s.last() == c {
        Some(s.len() - 1)
    } else {
        last_index(s.drop_last(), c)
    }
}

/// What `first_index` finds: the first place of `c`, with no `c` before it.
pub proof fn lemma_first_index(s: Seq<char>, c: char)
    ensures
        first_index(s, c) matches Some(i) ==> 0 <= i < s.len() && s[i] == c && forall|j: int|
            0 <= j < i ==> s[j] != c,
        first_index(s, c) is None ==> forall|j: int| 0 <= j < s.len() ==> s[j] != c,
    decreases s.len(),
{
    if s.len() > 0 && s[0] != c {
        lemma_first_index(s.drop_first(), c);
        if let Some(i) = first_index(s.drop_first(), c) {
            assert forall|j: int| 0 <= j < i + 1 implies s[j] != c by {
                if j > 0 {
                    assert(s[j] == s.drop_first()[j - 1]);
                }
            }
        } else {
            assert forall|j: int| 0 <= j < s.len() implies s[j] != c by {
                if j > 0 {
                    assert(s[j] == s.drop_first()[j - 1]);
                }
            }
        }
    }
}

/// What `last_index` finds: the last place of `c`, with no `c` after it.
pub proof fn lemma_last_index(s: Seq<char>, c: char)
    ensures
        last_index(s, c) matches Some(i) ==> 0 <= i < s.len() && s[i] == c && forall|j: int|
            i < j < s.len() ==> s[j] != c,
        last_index(s, c) is None ==> forall|j: int| 0 <= j < s.len() ==> s[j] != c,
    decreases s.len(),
{
    if s.len() > 0 && s.last() != c {
        lemma_last_index(s.drop_last(), c);
        assert forall|j: int| 0 <= j < s.len() - 1 implies s[j] == s.drop_last()[j] by {}
    }
}

/// The first place of `c` in `chars`.
pub fn find_char(chars: &[char], c: char) -> (found: Option<usize>)
    ensures
        found matches Some(i) ==> first_index(chars@, c) == Some(i as int),
        found is None ==> first_index(chars@, c) is None,
{
    let mut i: usize = 0;
    proof {
        lemma_first_index(chars@, c);
    }
    while i < chars.len()
        invariant
            0 <= i <= chars@.len(),
            forall|j: int| 0 <= j < i ==> chars@[j] != c,
        decreases chars@.len() - i,
    {
        if chars[i] == c {
            proof {
                lemma_first_index(chars@, c);
                if let Some(k) = first_index(chars@, c) {
                    assert(k == i);
                }
            }
            return Some(i);
        }
        i += 1;
    }
    proof {
        lemma_first_index(chars@, c);
    }
    None
}

/// The last place of `c` in `chars`.
pub fn rfind_char(chars: &[char], c: char) -> (found: Option<usize>)
    ensures
        found matches Some(i) ==> last_index(chars@, c) == Some(i as int),
        found is None ==> last_index(chars@, c) is None,
{
    let mut i: usize = chars.len();
    proof {
        lemma_last_index(chars@, c);
    }
    while i > 0
        invariant
            0 <= i <= chars@.len(),
            forall|j: int| i <= j < chars@.len() ==> chars@[j] != c,
        decreases i,
    {
        if chars[i - 1] == c {
            proof {
                lemma_last_index(chars@, c);
                if let Some(k) = last_index(chars@, c) {
                    assert(k == i - 1);
                }
            }
            return Some(i - 1);
        }
        i -= 1;
    }
    None
}

/// `needle` occurs in `hay`.
pub open spec fn has_infix(hay: Seq<char>, needle: Seq<char>) -> bool {
    exists|i: int| 0 <= i <= hay.len() - needle.len() && #[trigger] hay.subrange(i, i + needle.len()) == needle
}

/// Does `needle` occur in `hay`?
pub fn contains_text(hay: &str, needle: &str) -> (found: bool)
    ensures
        found == has_infix(hay@, needle@),
{
    let h = chars_of(hay);
    let n = chars_of(needle);
    let hl = h.len();
    if n.len() > hl {
        return false;
    }
    let mut i: usize = 0;
    while i <= hl - n.len()
        invariant
            hl == h@.len(),
            n@.len() <= h@.len(),
            0 <= i <= h@.len() - n@.len() + 1,
            h@ == hay@,
            n@ == needle@,
            forall|k: int| 0 <= k < i ==> #[trigger] h@.subrange(k, k + n@.len()) != n@,
        decreases h@.len() - n@.len() + 1 - i,
    {
        let mut j: usize = 0;
        while j < n.len() && h[i + j] == n[j]
            invariant
                0 <= j <= n@.len(),
                hl == h@.len(),
                i + n@.len() <= hl,
                forall|m: int| 0 <= m < j ==> h@[i + m] == n@[m],
            decreases n@.len() - j,
        {
            j += 1;
        }
        if j == n.len() {
            assert(h@.subrange(i as int, i + n@.len()) =~= n@);
            return true;
        }
        assert(h@.subrange(i as int, i + n@.len())[j as int] != n@[j as int]);
        i += 1;
    }
    assert forall|k: int| 0 <= k <= hay@.len() - needle@.len() implies #[trigger] hay@.subrange(
        k,
        k + needle@.len(),
    ) != needle@ by {}
    false
}

/// `s` starts with `prefix`.
pub open spec fn starts_with(s: Seq<char>, prefix: Seq<char>) -> bool {
    prefix.len() <= s.len() && s.subrange(0, prefix.len() as int) == prefix
}

/// Does `chars` start with `prefix`?
pub fn chars_start_with(chars: &[char], prefix: &[char]) -> (starts: bool)
    ensures
        starts == starts_with(chars@, prefix@),
{
    if prefix.len() > chars.len() {
        return false;
    }
    let mut i: usize = 0;
    while i < prefix.len()
        invariant
            0 <= i <= prefix@.len(),
            prefix@.len() <= chars@.len(),
            forall|m: int| 0 <= m < i ==> chars@[m] == prefix@[m],
        decreases prefix@.len() - i,
    {
        if chars[i] != prefix[i] {
            assert(chars@.subrange(0, prefix@.len() as int)[i as int] != prefix@[i as int]);
            return false;
        }
        i += 1;
    }
    assert(chars@.subrange(0, prefix@.len() as int) =~= prefix@);
    true
}

/// The characters `from..to` of `chars`, as text.
pub fn string_between(chars: &[char], from: usize, to: usize) -> (text: String)
    requires
        from <= to <= chars@.len(),
    ensures
        text@ == chars@.subrange(from as int, to as int),
{
    let mut text = String::new();
    let mut i: usize = from;
    while i < to
        invariant
            from <= i <= to <= chars@.len(),
            text@ == chars@.subrange(from as int, i as int),
        decreases to - i,
    {
        push_char(&mut text, chars[i]);
        assert(text@ =~= chars@.subrange(from as int, i + 1));
        i += 1;
    }
    text
}

/// The value of a run of ASCII digits (`None` if any character is not
/// one, or there are none).
pub open spec fn digits_value(s: Seq<char>) -> Option<nat>
    decreases s.len(),
{
    if s.len() == 0 {
        None
    } else if !('0' <= s.last() <= '9') {
        None
    } else if s.len() == 1 {
        Some((s.last() as nat - '0' as nat) as nat)
    } else {
        match digits_value(s.drop_last()) {
            Some(v) => Some(v * 10 + (s.last() as nat - '0' as nat) as nat),
            None => None,
        }
    }
}

/// An unsigned decimal as `from_str` reads it: an optional `+`, then one
/// or more ASCII digits, at most `max`.
pub open spec fn unsigned_value(s: Seq<char>, max: nat) -> Option<nat> {
    let digits = if s.len() > 0 && s[0] == '+' {
        s.drop_first()
    } else {
        s
    };
    match digits_value(digits) {
        Some(v) => if v <= max {
            Some(v)
        } else {
            None
        },
        None => None,
    }
}

/// Read an unsigned decimal no larger than `max`, as `from_str` reads it.
pub fn parse_unsigned(chars: &[char], max: u64) -> (value: Option<u64>)
    ensures
        match value {
            Some(v) => unsigned_value(chars@, max as nat) == Some(v as nat),
            None => unsigned_value(chars@, max as nat) is None,
        },
{
    let start: usize = if chars.len() > 0 && chars[0] == '+' {
        1
    } else {
        0
    };
    let ghost digits = chars@.subrange(start as int, chars@.len() as int);
    assert(start == 1 ==> digits =~= chars@.drop_first());
    assert(start == 0 ==> digits =~= chars@);
    if start == chars.len() {
        return None;
    }
    let mut value: u64 = 0;
    let mut i: usize = start;
    while i < chars.len()
        invariant
            start <= i <= chars@.len(),
            start < chars@.len(),
            digits == chars@.subrange(start as int, chars@.len() as int),
            digits == (if chars@.len() > 0 && chars@[0] == '+' {
                chars@.drop_first()
            } else {
                chars@
            }),
            i == start ==> value == 0,
            i > start ==> digits_value(chars@.subrange(start as int, i as int)) == Some(value as nat),
            value <= max,
        decreases chars@.len() - i,
    {
        let c = chars[i];
        let ghost prefix = chars@.subrange(start as int, i + 1);
        assert(prefix.drop_last() =~= chars@.subrange(start as int, i as int));
        assert(prefix.last() == c);
        if !('0' <= c && c <= '9') {
            proof {
                assert(digits[(i - start) as int] == c);
                lemma_digits_stop(digits, (i - start) as int);
            }
            return None;
        }
        let d = (c as u32 - '0' as u32) as u64;
        if d > max || value > (max - d) / 10 {
            proof {
                lemma_digits_monotone(digits, (i + 1 - start) as int);
                assert(value * 10 + d > max) by (nonlinear_arith)
                    requires
                        d > max || value > (max - d) / 10,
                        d <= 9,
                ;
                assert(digits.subrange(0, (i + 1 - start) as int) =~= prefix);
                assert(digits_value(prefix) == Some((value * 10 + d) as nat));
            }
            return None;
        }
        value = value * 10 + d;
        i += 1;
    }
    assert(chars@.subrange(start as int, chars@.len() as int) =~= digits);
    Some(value)
}

/// A non-digit anywhere spoils the whole run.
proof fn lemma_digits_stop(s: Seq<char>, k: int)
    requires
        0 <= k < s.len(),
        !('0' <= s[k] <= '9'),
    ensures
        digits_value(s) is None,
    decreases s.len(),
{
    if k < s.len() - 1 {
        lemma_digits_stop(s.drop_last(), k);
    }
}

/// A longer run of digits is worth at least as much as its prefix.
proof fn lemma_digits_monotone(s: Seq<char>, k: int)
    requires
        0 < k <= s.len(),
    ensures
        digits_value(s) matches Some(v) ==> digits_value(s.subrange(0, k)) matches Some(w) && w <= v,
    decreases s.len(),
{
    if k < s.len() {
        assert(s.drop_last().subrange(0, k) =~= s.subrange(0, k));
        lemma_digits_monotone(s.drop_last(), k);
    } else {
        assert(s.subrange(0, k) =~= s);
    }
}

/// Append `n` in decimal (any width up to 128 bits).
pub fn push_decimal_wide(out: &mut String, n: u128)
    ensures
        final(out)@ == old(out)@ + decimal(n as nat),
    decreases n,
{
    if n < 10 {
        out.append(digit_str(n as u64));
    } else {
        push_decimal_wide(out, n / 10);
        out.append(digit_str((n % 10) as u64));
    }
}

/// The characters `from..to` of `chars`.
pub fn chars_between(chars: &[char], from: usize, to: usize) -> (piece: Vec<char>)
    requires
        from <= to <= chars@.len(),
    ensures
        piece@ == chars@.subrange(from as int, to as int),
{
    let mut piece: Vec<char> = Vec::new();
    let mut i: usize = from;
    while i < to
        invariant
            from <= i <= to <= chars@.len(),
            piece@ == chars@.subrange(from as int, i as int),
        decreases to - i,
    {
        piece.push(chars[i]);
        assert(piece@ =~= chars@.subrange(from as int, i + 1));
        i += 1;
    }
    piece
}

/// `c` is white space (Unicode `White_Space`, as `char::is_whitespace`).
pub open spec fn white_space(c: char) -> bool {
    ||| '\t' <= c <= '\r'
    ||| c == ' '
    ||| c == '\u{85}'
    ||| c == '\u{a0}'
    ||| c == '\u{1680}'
    ||| '\u{2000}' <= c <= '\u{200a}'
    ||| c == '\u{2028}'
    ||| c == '\u{2029}'
    ||| c == '\u{202f}'
    ||| c == '\u{205f}'
    ||| c == '\u{3000}'
}

/// Nothing but white space (what `str::trim` empties).
pub open spec fn blank(text: Seq<char>) -> bool {
    forall|i: int| 0 <= i < text.len() ==> white_space(#[trigger] text[i])
}

/// Is `c` white space?
pub fn is_white(c: char) -> (white: bool)
    ensures
        white == white_space(c),
{
    ('\t' <= c && c <= '\r') || c == ' ' || c == '\u{85}' || c == '\u{a0}' || c == '\u{1680}' || (
    '\u{2000}' <= c && c <= '\u{200a}') || c == '\u{2028}' || c == '\u{2029}' || c == '\u{202f}'
        || c == '\u{205f}' || c == '\u{3000}'
}


/// `s` without its leading white space.
pub open spec fn trim_start(s: Seq<char>) -> Seq<char>
    decreases s.len(),
{
    if s.len() > 0 && white_space(s[0]) {
        trim_start(s.drop_first())
    } else {
        s
    }
}

/// `s` without its trailing white space.
pub open spec fn trim_end(s: Seq<char>) -> Seq<char>
    decreases s.len(),
{
    if s.len() > 0 && white_space(s.last()) {
        trim_end(s.drop_last())
    } else {
        s
    }
}

/// `s` without white space at either end (`str::trim`).
pub open spec fn trimmed(s: Seq<char>) -> Seq<char> {
    trim_end(trim_start(s))
}

/// `text` without white space at either end.
pub fn trim_text(text: &str) -> (out: String)
    ensures
        out@ == trimmed(text@),
{
    let chars = chars_of(text);
    let n = chars.len();
    let mut a: usize = 0;
    assert(chars@.skip(0) =~= chars@);
    while a < n && is_white(chars[a])
        invariant
            0 <= a <= n,
            n == chars@.len(),
            trim_start(chars@) == trim_start(chars@.skip(a as int)),
        decreases n - a,
    {
        assert(chars@.skip(a as int).drop_first() =~= chars@.skip(a + 1));
        a += 1;
    }
    let ghost start = chars@.skip(a as int);
    assert(trim_start(chars@) == start);
    let mut b: usize = n;
    assert(start.take((b - a) as int) =~= start);
    while b > a && is_white(chars[b - 1])
        invariant
            a <= b <= n,
            n == chars@.len(),
            start == chars@.skip(a as int),
            trim_end(start) == trim_end(start.take((b - a) as int)),
        decreases b,
    {
        assert(start.take((b - a) as int).drop_last() =~= start.take((b - 1 - a) as int));
        assert(start.take((b - a) as int).last() == chars@[b - 1]);
        b -= 1;
    }
    assert(start.take((b - a) as int) =~= chars@.subrange(a as int, b as int));
    string_between(chars.as_slice(), a, b)
}

/// `a` sorts strictly before `b`, character by character (a proper
/// prefix first).
pub open spec fn text_less(a: Seq<char>, b: Seq<char>) -> bool
    decreases a.len(),
{
    if b.len() == 0 {
        false
    } else if a.len() == 0 {
        true
    } else if a[0] != b[0] {
        a[0] < b[0]
    } else {
        text_less(a.drop_first(), b.drop_first())
    }
}

/// No text sorts before itself.
pub proof fn lemma_text_less_irreflexive(a: Seq<char>)
    ensures
        !text_less(a, a),
    decreases a.len(),
{
    if a.len() > 0 {
        lemma_text_less_irreflexive(a.drop_first());
    }
}

/// Sorting before is transitive.
pub proof fn lemma_text_less_transitive(a: Seq<char>, b: Seq<char>, c: Seq<char>)
    requires
        text_less(a, b),
        text_less(b, c),
    ensures
        text_less(a, c),
    decreases a.len(),
{
    if a.len() > 0 && b.len() > 0 && c.len() > 0 && a[0] == b[0] && b[0] == c[0] {
        lemma_text_less_transitive(a.drop_first(), b.drop_first(), c.drop_first());
    }
}

/// Of two different texts, one sorts before the other, and not both ways.
pub proof fn lemma_text_less_total(a: Seq<char>, b: Seq<char>)
    ensures
        a != b ==> text_less(a, b) || text_less(b, a),
        !(text_less(a, b) && text_less(b, a)),
    decreases a.len(),
{
    if a.len() > 0 && b.len() > 0 && a[0] == b[0] {
        lemma_text_less_total(a.drop_first(), b.drop_first());
        if a != b {
            assert(a =~= seq![a[0]] + a.drop_first());
            assert(b =~= seq![b[0]] + b.drop_first());
        }
    } else if a.len() == 0 && b.len() == 0 {
        assert(a =~= b);
    }
}

/// Does `a` sort strictly before `b`?
pub fn text_before(a: &[char], b: &[char]) -> (before: bool)
    ensures
        before == text_less(a@, b@),
{
    let mut i: usize = 0;
    assert(a@.skip(0) =~= a@);
    assert(b@.skip(0) =~= b@);
    while i < a.len() && i < b.len() && a[i] == b[i]
        invariant
            0 <= i <= a@.len(),
            i <= b@.len(),
            text_less(a@, b@) == text_less(a@.skip(i as int), b@.skip(i as int)),
        decreases a@.len() - i,
    {
        assert(a@.skip(i as int).drop_first() =~= a@.skip(i + 1));
        assert(b@.skip(i as int).drop_first() =~= b@.skip(i + 1));
        i += 1;
    }
    if i == b.len() {
        false
    } else if i == a.len() {
        true
    } else {
        a[i] < b[i]
    }
}

/// What `String::from_utf8_lossy` makes of `bytes`.
pub uninterp spec fn utf8_lossy(bytes: Seq<u8>) -> Seq<char>;

/// `bytes` as text, invalid sequences replaced (`String::from_utf8_lossy`).
#[verifier::external_body]
pub(crate) fn lossy_text(bytes: &[u8]) -> (text: String)
    ensures
        text@ == utf8_lossy(bytes@),
{
    String::from_utf8_lossy(bytes).into_owned()
}

/// How `{:?}` spells a text: quoted, with escapes.
pub uninterp spec fn debug_text(text: Seq<char>) -> Seq<char>;

/// A text as `{:?}` spells it.
#[verifier::external_body]
pub(crate) fn debug_quoted(text: &str) -> (quoted: String)
    ensures
        quoted@ == debug_text(text@),
{
    format!("{text:?}")
}

} // verus!
