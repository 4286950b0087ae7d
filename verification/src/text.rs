//! Text handling on sequences of characters: trimming, splitting, comparing
//! and reading numbers.

use vstd::prelude::*;
use vstd::slice::slice_subrange;

verus! {

/// `String::push` appends the character to the end of the string.
pub assume_specification[ std::string::String::push ](string: &mut String, c: char)
    ensures
        final(string)@ == old(string)@.push(c),
;

/// The characters with the Unicode property `White_Space`.
pub open spec fn whitespace(c: char) -> bool {
    ||| 0x09 <= c as u32 <= 0x0d
    ||| c as u32 == 0x20
    ||| c as u32 == 0x85
    ||| c as u32 == 0xa0
    ||| c as u32 == 0x1680
    ||| 0x2000 <= c as u32 <= 0x200a
    ||| c as u32 == 0x2028
    ||| c as u32 == 0x2029
    ||| c as u32 == 0x202f
    ||| c as u32 == 0x205f
    ||| c as u32 == 0x3000
}

/// `s` without its leading whitespace.
pub open spec fn trimmed_start(s: Seq<char>) -> Seq<char>
    decreases s.len(),
{
    if s.len() > 0 && whitespace(s[0]) {
        trimmed_start(s.skip(1))
    } else {
        s
    }
}

/// `s` without its trailing whitespace.
pub open spec fn trimmed_end(s: Seq<char>) -> Seq<char>
    decreases s.len(),
{
    if s.len() > 0 && whitespace(s.last()) {
        trimmed_end(s.drop_last())
    } else {
        s
    }
}

/// `s` without the whitespace at either end.
pub open spec fn trimmed(s: Seq<char>) -> Seq<char> {
    trimmed_end(trimmed_start(s))
}

/// Whether every character of `s` is whitespace.
pub open spec fn blank(s: Seq<char>) -> bool {
    forall|i: int| 0 <= i < s.len() ==> whitespace(#[trigger] s[i])
}

/// The index of the first `c` in `s`, or the length of `s` where there is none.
pub open spec fn first_index(s: Seq<char>, c: char) -> int
    decreases s.len(),
{
    if s.len() == 0 || s[0] == c {
        0
    } else {
        1 + first_index(s.skip(1), c)
    }
}

/// The pieces of `s` between the separators, one more than there are separators.
pub open spec fn split(s: Seq<char>, sep: char) -> Seq<Seq<char>>
    decreases s.len(),
{
    let end = first_index(s, sep);
    if 0 <= end < s.len() {
        seq![s.take(end)] + split(s.skip(end + 1), sep)
    } else {
        seq![s]
    }
}

/// The ASCII lower-case form of a character; other characters stay as they are.
pub open spec fn ascii_lower(c: char) -> char {
    if 'A' as u32 <= c as u32 <= 'Z' as u32 {
        ((c as u32 + 32) as u8) as char
    } else {
        c
    }
}

/// `s` with every ASCII letter in lower case.
pub open spec fn lowercase(s: Seq<char>) -> Seq<char> {
    s.map_values(|c: char| ascii_lower(c))
}

/// Whether `c` is a decimal digit.
pub open spec fn decimal_digit(c: char) -> bool {
    '0' as u32 <= c as u32 <= '9' as u32
}

/// The number that a sequence of decimal digits writes.
pub open spec fn decimal_value(digits: Seq<char>) -> nat
    decreases digits.len(),
{
    if digits.len() == 0 {
        0
    } else {
        10 * decimal_value(digits.drop_last()) + (digits.last() as u32 - '0' as u32) as nat
    }
}

/// The digits of a written unsigned number: what follows an optional plus sign.
pub open spec fn unsigned_digits(s: Seq<char>) -> Seq<char> {
    if s.len() > 0 && s[0] == '+' {
        s.skip(1)
    } else {
        s
    }
}

/// The 32-bit number that `s` writes: an optional plus sign, then at least one
/// decimal digit and nothing else, with a value that fits.
pub open spec fn unsigned_value(s: Seq<char>) -> Option<u32> {
    let digits = unsigned_digits(s);
    if digits.len() > 0 && (forall|i: int|
        0 <= i < digits.len() ==> decimal_digit(#[trigger] digits[i])) && decimal_value(digits)
        <= u32::MAX {
        Some(decimal_value(digits) as u32)
    } else {
        None
    }
}

/// Whether `c` has the Unicode property `White_Space`.
pub fn is_whitespace(c: char) -> (answer: bool)
    ensures
        answer == whitespace(c),
{
    let n: u32 = c as u32;
    (0x09 <= n && n <= 0x0d) || n == 0x20 || n == 0x85 || n == 0xa0 || n == 0x1680 || (0x2000 <= n
        && n <= 0x200a) || n == 0x2028 || n == 0x2029 || n == 0x202f || n == 0x205f || n == 0x3000
}

/// The characters of a string.
pub fn chars_of(s: &str) -> (chars: Vec<char>)
    ensures
        chars@ == s@,
{
    let mut chars: Vec<char> = Vec::new();
    for c in iter: s.chars()
        invariant
            iter.seq() == s@,
            chars@ == s@.take(iter.index() as int),
    {
        chars.push(c);
        assert(s@.take(iter.index() + 1) == s@.take(iter.index() as int).push(c));
    }
    assert(s@.take(s@.len() as int) == s@);
    chars
}

/// The string of some characters.
pub fn string_of(chars: &[char]) -> (s: String)
    ensures
        s@ == chars@,
{
    let mut s = String::new();
    for i in 0..chars.len()
        invariant
            s@ == chars@.take(i as int),
    {
        s.push(chars[i]);
        assert(chars@.take(i + 1) == chars@.take(i as int).push(chars@[i as int]));
    }
    assert(chars@.take(chars@.len() as int) == chars@);
    s
}

/// The slice without its leading whitespace.
pub fn trim_start_chars(s: &[char]) -> (rest: &[char])
    ensures
        rest@ == trimmed_start(s@),
{
    let mut i: usize = 0;
    assert(s@.skip(0) == s@);
    while i < s.len() && is_whitespace(s[i])
        invariant
            i <= s.len(),
            trimmed_start(s@) == trimmed_start(s@.skip(i as int)),
        decreases s.len() - i,
    {
        assert(s@.skip(i as int).skip(1) == s@.skip(i + 1));
        i = i + 1;
    }
    let rest = slice_subrange(s, i, s.len());
    assert(rest@ == s@.skip(i as int));
    rest
}

/// The slice without its trailing whitespace.
pub fn trim_end_chars(s: &[char]) -> (rest: &[char])
    ensures
        rest@ == trimmed_end(s@),
{
    let mut n: usize = s.len();
    assert(s@.take(n as int) == s@);
    while n > 0 && is_whitespace(s[n - 1])
        invariant
            n <= s.len(),
            trimmed_end(s@) == trimmed_end(s@.take(n as int)),
        decreases n,
    {
        assert(s@.take(n as int).drop_last() == s@.take(n - 1));
        n = n - 1;
    }
    let rest = slice_subrange(s, 0, n);
    assert(rest@ == s@.take(n as int));
    rest
}

/// The slice without the whitespace at either end.
pub fn trim_chars(s: &[char]) -> (rest: &[char])
    ensures
        rest@ == trimmed(s@),
{
    trim_end_chars(trim_start_chars(s))
}

/// The text without the whitespace at either end.
pub fn trim(s: &str) -> (rest: String)
    ensures
        rest@ == trimmed(s@),
{
    let chars = chars_of(s);
    string_of(trim_chars(chars.as_slice()))
}

/// Whether the two texts are the same.
pub fn same_text(a: &str, b: &str) -> (answer: bool)
    ensures
        answer == (a@ == b@),
{
    a.to_owned() == b.to_owned()
}

/// Whether the text is empty or made of whitespace alone.
pub fn is_blank(s: &str) -> (answer: bool)
    ensures
        answer == (trimmed(s@).len() == 0),
{
    let chars = chars_of(s);
    trim_chars(chars.as_slice()).len() == 0
}

/// The first index of a character lies in the text, holds that character, and
/// has none before it; it is the length exactly where there is none.
pub proof fn first_index_bounds(s: Seq<char>, c: char)
    ensures
        0 <= first_index(s, c) <= s.len(),
        first_index(s, c) < s.len() <==> s.contains(c),
        first_index(s, c) < s.len() ==> s[first_index(s, c)] == c,
        forall|i: int| 0 <= i < first_index(s, c) ==> #[trigger] s[i] != c,
    decreases s.len(),
{
    if s.len() > 0 && s[0] != c {
        first_index_bounds(s.skip(1), c);
        assert forall|i: int| 0 <= i < first_index(s, c) implies #[trigger] s[i] != c by {
            if i > 0 {
                assert(s[i] == s.skip(1)[i - 1]);
            }
        }
    }
}

/// The index of the first `c`, where there is one.
pub fn find_char(s: &[char], c: char) -> (found: Option<usize>)
    ensures
        match found {
            Some(i) => i == first_index(s@, c) && i < s@.len() && s@.contains(c),
            None => first_index(s@, c) == s@.len() && !s@.contains(c),
        },
{
    let mut i: usize = 0;
    assert(s@.skip(0) == s@);
    while i < s.len()
        invariant
            i <= s.len(),
            first_index(s@, c) == i + first_index(s@.skip(i as int), c),
            forall|j: int| 0 <= j < i ==> #[trigger] s@[j] != c,
        decreases s.len() - i,
    {
        if s[i] == c {
            return Some(i);
        }
        assert(s@.skip(i as int).skip(1) == s@.skip(i + 1));
        i = i + 1;
    }
    None
}

/// The pieces of the slice between the separators.
pub fn split_chars(s: &[char], sep: char) -> (pieces: Vec<&[char]>)
    ensures
        pieces@.len() == split(s@, sep).len(),
        forall|i: int| 0 <= i < pieces@.len() ==> (#[trigger] pieces@[i])@ == split(s@, sep)[i],
{
    let mut pieces: Vec<&[char]> = Vec::new();
    let mut rest: &[char] = s;
    loop
        invariant
            pieces@.len() + split(rest@, sep).len() == split(s@, sep).len(),
            forall|i: int|
                0 <= i < pieces@.len() ==> (#[trigger] pieces@[i])@ == split(s@, sep)[i],
            forall|i: int|
                #![trigger split(rest@, sep)[i]]
                0 <= i < split(rest@, sep).len() ==> split(rest@, sep)[i] == split(
                    s@,
                    sep,
                )[pieces@.len() + i],
        decreases rest@.len(),
    {
        let len: usize = rest.len();
        let ghost before = rest@;
        let ghost count = pieces@.len() as int;
        match find_char(rest, sep) {
            Some(end) => {
                let piece = slice_subrange(rest, 0, end);
                rest = slice_subrange(rest, end + 1, len);
                proof {
                    assert(piece@ == before.take(end as int));
                    assert(rest@ == before.skip(end + 1));
                    assert(split(before, sep) == seq![piece@] + split(rest@, sep));
                    assert(split(before, sep)[0] == piece@);
                    assert forall|i: int| 0 <= i < split(rest@, sep).len() implies #[trigger] split(
                        rest@,
                        sep,
                    )[i] == split(s@, sep)[count + 1 + i] by {
                        assert(split(before, sep)[i + 1] == split(rest@, sep)[i]);
                    }
                }
                pieces.push(piece);
            },
            None => {
                assert(split(before, sep)[0] == rest@);
                pieces.push(rest);
                return pieces;
            },
        }
    }
}

/// The slice with every ASCII letter in lower case.
pub fn lowercase_chars(s: &[char]) -> (lower: Vec<char>)
    ensures
        lower@ == lowercase(s@),
{
    let mut lower: Vec<char> = Vec::new();
    for i in 0..s.len()
        invariant
            lower@ == lowercase(s@.take(i as int)),
    {
        let c: char = s[i];
        let n: u32 = c as u32;
        let l: char = if 'A' as u32 <= n && n <= 'Z' as u32 {
            ((n + 32) as u8) as char
        } else {
            c
        };
        lower.push(l);
        assert(lowercase(s@.take(i + 1)) == lowercase(s@.take(i as int)).push(l));
    }
    assert(s@.take(s@.len() as int) == s@);
    lower
}

proof fn decimal_value_grows(digits: Seq<char>, i: int)
    requires
        0 <= i <= digits.len(),
    ensures
        decimal_value(digits.take(i)) <= decimal_value(digits),
    decreases digits.len() - i,
{
    if i < digits.len() {
        assert(digits.take(i + 1).drop_last() == digits.take(i));
        decimal_value_grows(digits, i + 1);
    } else {
        assert(digits.take(i) == digits);
    }
}

/// Reads an unsigned 32-bit number.
pub fn parse_unsigned(s: &[char]) -> (value: Option<u32>)
    ensures
        value == unsigned_value(s@),
{
    let digits: &[char] = if s.len() > 0 && s[0] == '+' {
        slice_subrange(s, 1, s.len())
    } else {
        s
    };
    assert(digits@ == unsigned_digits(s@));
    if digits.len() == 0 {
        return None;
    }
    let mut value: u64 = 0;
    assert(digits@.take(0) == Seq::<char>::empty());
    for i in 0..digits.len()
        invariant
            digits@ == unsigned_digits(s@),
            value == decimal_value(digits@.take(i as int)),
            value <= u32::MAX,
            forall|j: int| 0 <= j < i ==> decimal_digit(#[trigger] digits@[j]),
    {
        let c: char = digits[i];
        let n: u32 = c as u32;
        if n < '0' as u32 || n > '9' as u32 {
            assert(!decimal_digit(digits@[i as int]));
            return None;
        }
        value = value * 10 + (n - '0' as u32) as u64;
        assert(digits@.take(i + 1).drop_last() == digits@.take(i as int));
        if value > u32::MAX as u64 {
            proof {
                decimal_value_grows(digits@, i + 1);
            }
            return None;
        }
    }
    assert(digits@.take(digits@.len() as int) == digits@);
    Some(value as u32)
}

proof fn first_index_in_front(a: Seq<char>, b: Seq<char>, c: char)
    ensures
        first_index(a + b, c) == (if first_index(a, c) < a.len() {
            first_index(a, c)
        } else {
            a.len() + first_index(b, c)
        }),
    decreases a.len(),
{
    if a.len() == 0 {
        assert(a + b =~= b);
    } else {
        assert((a + b)[0] == a[0]);
        assert((a + b).skip(1) =~= a.skip(1) + b);
        first_index_in_front(a.skip(1), b, c);
        first_index_bounds(a.skip(1), c);
    }
}

/// The pieces of two texts with a separator between them are those of the one,
/// then those of the other.
pub proof fn split_joins(a: Seq<char>, b: Seq<char>, sep: char)
    ensures
        split(a.push(sep) + b, sep) == split(a, sep) + split(b, sep),
    decreases a.len(),
{
    let all = a.push(sep) + b;
    let behind = seq![sep] + b;
    assert(all =~= a + behind);
    first_index_in_front(a, behind, sep);
    first_index_bounds(a, sep);
    assert(behind[0] == sep);
    assert(first_index(behind, sep) == 0);
    let end = first_index(a, sep);
    if end < a.len() {
        let rest = a.skip(end + 1);
        assert(all.take(end) =~= a.take(end));
        assert(all.skip(end + 1) =~= rest.push(sep) + b);
        split_joins(rest, b, sep);
        assert(split(all, sep) =~= seq![a.take(end)] + (split(rest, sep) + split(b, sep)));
        assert(split(a, sep) =~= seq![a.take(end)] + split(rest, sep));
        assert(split(all, sep) =~= split(a, sep) + split(b, sep));
    } else {
        assert(all.take(a.len() as int) =~= a);
        assert(all.skip(a.len() as int + 1) =~= b);
        assert(split(all, sep) =~= split(a, sep) + split(b, sep));
    }
}

/// A text without the separator is one piece.
pub proof fn split_of_one_piece(s: Seq<char>, sep: char)
    requires
        !s.contains(sep),
    ensures
        split(s, sep) == seq![s],
{
    first_index_bounds(s, sep);
    if first_index(s, sep) < s.len() {
        assert(s.contains(s[first_index(s, sep)]));
    }
}

/// Trimming the front leaves a suffix that does not start with whitespace.
pub proof fn trimmed_start_is_suffix(s: Seq<char>)
    ensures
        trimmed_start(s).len() <= s.len(),
        trimmed_start(s) == s.skip(s.len() - trimmed_start(s).len()),
        trimmed_start(s).len() > 0 ==> !whitespace(trimmed_start(s)[0]),
    decreases s.len(),
{
    if s.len() > 0 && whitespace(s[0]) {
        trimmed_start_is_suffix(s.skip(1));
    }
}

proof fn trimmed_end_is_prefix(s: Seq<char>)
    ensures
        trimmed_end(s).len() <= s.len(),
        trimmed_end(s) == s.take(trimmed_end(s).len() as int),
        trimmed_end(s).len() > 0 ==> !whitespace(trimmed_end(s).last()),
    decreases s.len(),
{
    if s.len() > 0 && whitespace(s.last()) {
        trimmed_end_is_prefix(s.drop_last());
    }
}

/// Trimming gives a part of the text that neither starts nor ends with
/// whitespace.
pub proof fn trimmed_has_no_outer_whitespace(s: Seq<char>)
    ensures
        trimmed(s).len() <= s.len(),
        trimmed(s).len() > 0 ==> !whitespace(trimmed(s)[0]) && !whitespace(trimmed(s).last()),
{
    trimmed_start_is_suffix(s);
    trimmed_end_is_prefix(trimmed_start(s));
}

/// Trimming a second time changes nothing.
pub proof fn trimming_is_idempotent(s: Seq<char>)
    ensures
        trimmed(trimmed(s)) == trimmed(s),
{
    trimmed_has_no_outer_whitespace(s);
}

proof fn trimmed_start_keeps(s: Seq<char>, i: int)
    requires
        0 <= i < s.len(),
        !whitespace(s[i]),
    ensures
        trimmed_start(s).len() > 0,
    decreases s.len(),
{
    if whitespace(s[0]) {
        assert(s.skip(1)[i - 1] == s[i]);
        trimmed_start_keeps(s.skip(1), i - 1);
    }
}

proof fn trimmed_end_keeps(s: Seq<char>)
    requires
        s.len() > 0,
        !whitespace(s[0]),
    ensures
        trimmed_end(s).len() > 0,
    decreases s.len(),
{
    if whitespace(s.last()) {
        trimmed_end_keeps(s.drop_last());
    }
}

proof fn trimmed_start_of_blank(s: Seq<char>)
    requires
        blank(s),
    ensures
        trimmed_start(s).len() == 0,
    decreases s.len(),
{
    if s.len() > 0 {
        trimmed_start_of_blank(s.skip(1));
    }
}

/// Trimming the end of whitespace leaves nothing.
pub proof fn trimmed_end_of_blank(s: Seq<char>)
    requires
        blank(s),
    ensures
        trimmed_end(s).len() == 0,
    decreases s.len(),
{
    if s.len() > 0 {
        trimmed_end_of_blank(s.drop_last());
    }
}

/// Trimming leaves nothing exactly where every character is whitespace.
pub proof fn blank_text_trims_to_nothing(s: Seq<char>)
    ensures
        trimmed(s).len() == 0 <==> blank(s),
{
    if blank(s) {
        trimmed_start_of_blank(s);
    } else {
        let i = choose|i: int| 0 <= i < s.len() && !whitespace(#[trigger] s[i]);
        trimmed_start_keeps(s, i);
        trimmed_start_is_suffix(s);
        trimmed_end_keeps(trimmed_start(s));
    }
}

/// The decimal digits of a number.
pub open spec fn decimal(n: nat) -> Seq<char>
    decreases n,
{
    if n < 10 {
        seq![(48 + n) as u8 as char]
    } else {
        decimal(n / 10).push((48 + n % 10) as u8 as char)
    }
}

/// A number in decimal notation, with a minus sign in front where it is negative.
pub open spec fn signed_decimal(n: int) -> Seq<char> {
    if n < 0 {
        seq!['-'] + decimal((-n) as nat)
    } else {
        decimal(n as nat)
    }
}

fn push_decimal(string: &mut String, n: u64)
    ensures
        final(string)@ == old(string)@ + decimal(n as nat),
    decreases n,
{
    if n >= 10 {
        push_decimal(string, n / 10);
    }
    let ghost before = string@;
    string.push((48 + (n % 10) as u8) as char);
    assert(string@ == old(string)@ + decimal(n as nat));
}

/// Writes a number in decimal notation.
pub fn signed_text(n: i64) -> (string: String)
    ensures
        string@ == signed_decimal(n as int),
{
    let mut string = String::new();
    if n < 0 {
        string.push('-');
        let size: u64 = if n == i64::MIN {
            0x8000_0000_0000_0000
        } else {
            (-n) as u64
        };
        push_decimal(&mut string, size);
        assert(string@ == seq!['-'] + decimal(size as nat));
    } else {
        push_decimal(&mut string, n as u64);
        assert(string@ == decimal(n as nat));
    }
    string
}

proof fn decimal_reads_back(n: nat)
    ensures
        decimal(n).len() > 0,
        forall|i: int| 0 <= i < decimal(n).len() ==> decimal_digit(#[trigger] decimal(n)[i]),
        decimal_value(decimal(n)) == n,
    decreases n,
{
    if n >= 10 {
        decimal_reads_back(n / 10);
        assert(decimal(n).drop_last() == decimal(n / 10));
    } else {
        assert(decimal(n).drop_last() == Seq::<char>::empty());
        assert(decimal_value(Seq::<char>::empty()) == 0);
    }
}

/// A number that was written in decimal notation reads back as itself.
pub proof fn written_number_reads_back(n: u32)
    ensures
        unsigned_value(decimal(n as nat)) == Some(n),
{
    decimal_reads_back(n as nat);
    assert(decimal_digit(decimal(n as nat)[0]));
}

/// Text with more text behind it.
pub fn joined_text(a: &str, b: &str) -> (string: String)
    ensures
        string@ == a@ + b@,
{
    let mut string = a.to_owned();
    string.append(b);
    string
}

/// What some strings say.
pub open spec fn texts_of(strings: Seq<String>) -> Seq<Seq<char>> {
    strings.map_values(|s: String| s@)
}

/// Puts a text at the end of some others.
pub fn push_text(strings: &mut Vec<String>, string: &str)
    ensures
        texts_of(final(strings)@) == texts_of(old(strings)@).push(string@),
{
    let ghost before = strings@;
    strings.push(string.to_owned());
    assert(texts_of(strings@) =~= texts_of(before).push(string@));
}

/// Puts bytes at the end of some others.
pub fn append_bytes(bytes: &mut Vec<u8>, more: &[u8])
    ensures
        final(bytes)@ == old(bytes)@ + more@,
{
    let ghost before = bytes@;
    for i in 0..more.len()
        invariant
            bytes@ == before + more@.take(i as int),
    {
        bytes.push(more[i]);
        assert(more@.take(i + 1) == more@.take(i as int).push(more@[i as int]));
    }
    assert(more@.take(more@.len() as int) == more@);
}

/// The name of an entry of a directory, with the directory in front of it.
pub open spec fn joined_name(base: Seq<char>, name: Seq<char>) -> Seq<char> {
    if base.len() == 0 || base.last() == '/' {
        base + name
    } else {
        base.push('/') + name
    }
}

/// Puts a directory in front of the name of one of its entries.
pub fn join_name(base: &str, name: &str) -> (path: String)
    ensures
        path@ == joined_name(base@, name@),
{
    let chars = chars_of(base);
    let mut path = base.to_owned();
    if chars.len() > 0 && chars[chars.len() - 1] != '/' {
        path.push('/');
    }
    path.append(name);
    path
}

/// Whether `s` starts with `prefix`.
pub open spec fn begins(s: Seq<char>, prefix: Seq<char>) -> bool {
    prefix.len() <= s.len() && s.take(prefix.len() as int) == prefix
}

/// Whether `s` ends with `suffix`.
pub open spec fn ends(s: Seq<char>, suffix: Seq<char>) -> bool {
    suffix.len() <= s.len() && s.skip(s.len() - suffix.len()) == suffix
}

fn same_chars(a: &[char], b: &[char]) -> (answer: bool)
    ensures
        answer == (a@ == b@),
{
    if a.len() != b.len() {
        return false;
    }
    for i in 0..a.len()
        invariant
            a@.len() == b@.len(),
            forall|j: int| 0 <= j < i ==> a@[j] == b@[j],
    {
        if a[i] != b[i] {
            return false;
        }
    }
    assert(a@ == b@);
    true
}

/// Whether the text starts with the prefix.
pub fn starts_with(s: &str, prefix: &str) -> (answer: bool)
    ensures
        answer == begins(s@, prefix@),
{
    let chars = chars_of(s);
    let front = chars_of(prefix);
    if front.len() > chars.len() {
        return false;
    }
    let head = slice_subrange(chars.as_slice(), 0, front.len());
    assert(head@ == s@.take(prefix@.len() as int));
    same_chars(head, front.as_slice())
}

/// Whether the text ends with the suffix.
pub fn ends_with(s: &str, suffix: &str) -> (answer: bool)
    ensures
        answer == ends(s@, suffix@),
{
    let chars = chars_of(s);
    let back = chars_of(suffix);
    if back.len() > chars.len() {
        return false;
    }
    let tail = slice_subrange(chars.as_slice(), chars.len() - back.len(), chars.len());
    assert(tail@ == s@.skip(s@.len() - suffix@.len()));
    same_chars(tail, back.as_slice())
}

/// Whether `a` does not come behind `b` in the order of code points, which is
/// that of the bytes of their UTF-8 encodings.
pub open spec fn ordered(a: Seq<char>, b: Seq<char>) -> bool
    decreases a.len(),
{
    if a.len() == 0 {
        true
    } else if b.len() == 0 {
        false
    } else if a[0] != b[0] {
        (a[0] as u32) < (b[0] as u32)
    } else {
        ordered(a.skip(1), b.skip(1))
    }
}

/// Every text is in order with itself.
pub proof fn ordered_reflexive(a: Seq<char>)
    ensures
        ordered(a, a),
    decreases a.len(),
{
    if a.len() > 0 {
        ordered_reflexive(a.skip(1));
    }
}

/// Two texts that are in order both ways round are the same.
pub proof fn ordered_antisymmetric(a: Seq<char>, b: Seq<char>)
    requires
        ordered(a, b),
        ordered(b, a),
    ensures
        a == b,
    decreases a.len(),
{
    if a.len() > 0 && b.len() > 0 && a[0] == b[0] {
        ordered_antisymmetric(a.skip(1), b.skip(1));
        assert forall|i: int| 0 <= i < a.len() implies a[i] == b[i] by {
            if i > 0 {
                assert(a[i] == a.skip(1)[i - 1]);
                assert(b[i] == b.skip(1)[i - 1]);
            }
        }
        assert(a.len() == a.skip(1).len() + 1);
        assert(a =~= b);
    } else if a.len() == 0 {
        assert(a =~= b);
    }
}

/// What comes behind something that comes behind a third comes behind the third.
pub proof fn ordered_transitive(a: Seq<char>, b: Seq<char>, c: Seq<char>)
    requires
        ordered(a, b),
        ordered(b, c),
    ensures
        ordered(a, c),
    decreases a.len(),
{
    if a.len() > 0 && b.len() > 0 && c.len() > 0 && a[0] == b[0] && b[0] == c[0] {
        ordered_transitive(a.skip(1), b.skip(1), c.skip(1));
    }
}

/// Any two texts are in order one way round or the other.
pub proof fn ordered_total(a: Seq<char>, b: Seq<char>)
    ensures
        ordered(a, b) || ordered(b, a),
    decreases a.len(),
{
    if a.len() > 0 && b.len() > 0 && a[0] == b[0] {
        ordered_total(a.skip(1), b.skip(1));
    } else if a.len() > 0 && b.len() > 0 {
        different_code_points(a[0], b[0]);
    }
}

proof fn different_code_points(x: char, y: char)
    requires
        x != y,
    ensures
        x as u32 != y as u32,
{
}

/// Whether the first text does not come behind the second.
pub fn in_order(a: &str, b: &str) -> (answer: bool)
    ensures
        answer == ordered(a@, b@),
{
    let first = chars_of(a);
    let second = chars_of(b);
    let mut i: usize = 0;
    assert(a@.skip(0) == a@ && b@.skip(0) == b@);
    while i < first.len() && i < second.len() && first[i] == second[i]
        invariant
            first@ == a@,
            second@ == b@,
            i <= first.len(),
            i <= second.len(),
            ordered(a@, b@) == ordered(a@.skip(i as int), b@.skip(i as int)),
        decreases first.len() - i,
    {
        assert(a@.skip(i as int).skip(1) == a@.skip(i + 1));
        assert(b@.skip(i as int).skip(1) == b@.skip(i + 1));
        i = i + 1;
    }
    if i == first.len() {
        true
    } else if i == second.len() {
        false
    } else {
        let x: u32 = first[i] as u32;
        let y: u32 = second[i] as u32;
        x < y
    }
}

/// Whitespace is these characters and no others.
pub proof fn whitespace_is_these(c: char)
    ensures
        whitespace(c) <==> seq![
            '\t',
            '\n',
            '\u{b}',
            '\u{c}',
            '\r',
            ' ',
            '\u{85}',
            '\u{a0}',
            '\u{1680}',
            '\u{2000}',
            '\u{2001}',
            '\u{2002}',
            '\u{2003}',
            '\u{2004}',
            '\u{2005}',
            '\u{2006}',
            '\u{2007}',
            '\u{2008}',
            '\u{2009}',
            '\u{200a}',
            '\u{2028}',
            '\u{2029}',
            '\u{202f}',
            '\u{205f}',
            '\u{3000}',
        ].contains(c),
{
    let all = seq![
        '\t',
        '\n',
        '\u{b}',
        '\u{c}',
        '\r',
        ' ',
        '\u{85}',
        '\u{a0}',
        '\u{1680}',
        '\u{2000}',
        '\u{2001}',
        '\u{2002}',
        '\u{2003}',
        '\u{2004}',
        '\u{2005}',
        '\u{2006}',
        '\u{2007}',
        '\u{2008}',
        '\u{2009}',
        '\u{200a}',
        '\u{2028}',
        '\u{2029}',
        '\u{202f}',
        '\u{205f}',
        '\u{3000}',
    ];
    if whitespace(c) {
        let code = c as u32;
        let i: int = if code <= 0x0d {
            code - 9
        } else if code == 0x20 {
            5
        } else if code == 0x85 {
            6
        } else if code == 0xa0 {
            7
        } else if code == 0x1680 {
            8
        } else if code <= 0x200a {
            9 + code - 0x2000
        } else if code == 0x2028 {
            20
        } else if code == 0x2029 {
            21
        } else if code == 0x202f {
            22
        } else if code == 0x205f {
            23
        } else {
            24
        };
        assert(all[i] as u32 == code);
        assert(all[i] == c);
    }
}

/// Trimming takes whitespace off both ends, all of it and nothing else.
pub proof fn trimming_takes_whitespace_off(s: Seq<char>)
    ensures
        exists|from: int, to: int|
            0 <= from <= to <= s.len() && trimmed(s) == #[trigger] s.subrange(from, to) && (
            forall|i: int| 0 <= i < from || to <= i < s.len() ==> whitespace(#[trigger] s[i])),
        trimmed(s).len() > 0 ==> !whitespace(trimmed(s)[0]) && !whitespace(trimmed(s).last()),
{
    trimmed_has_no_outer_whitespace(s);
    trimmed_start_takes_whitespace(s);
    trimmed_start_is_suffix(s);
    let front = trimmed_start(s);
    trimmed_end_takes_whitespace(front);
    trimmed_end_is_prefix(front);
    let from = s.len() - front.len();
    let to = from + trimmed(s).len();
    assert(trimmed(s) =~= s.subrange(from, to));
    assert forall|i: int| 0 <= i < from || to <= i < s.len() implies whitespace(
        #[trigger] s[i],
    ) by {
        if to <= i {
            assert(s[i] == front[i - from]);
        }
    }
}

proof fn trimmed_start_takes_whitespace(s: Seq<char>)
    ensures
        trimmed_start(s).len() <= s.len(),
        forall|i: int| 0 <= i < s.len() - trimmed_start(s).len() ==> whitespace(#[trigger] s[i]),
    decreases s.len(),
{
    if s.len() > 0 && whitespace(s[0]) {
        let rest = s.skip(1);
        trimmed_start_takes_whitespace(rest);
        assert forall|i: int| 0 <= i < s.len() - trimmed_start(s).len() implies whitespace(
            #[trigger] s[i],
        ) by {
            if i > 0 {
                assert(s[i] == rest[i - 1]);
            }
        }
    }
}

proof fn trimmed_end_takes_whitespace(s: Seq<char>)
    ensures
        trimmed_end(s).len() <= s.len(),
        forall|i: int| trimmed_end(s).len() <= i < s.len() ==> whitespace(#[trigger] s[i]),
    decreases s.len(),
{
    if s.len() > 0 && whitespace(s.last()) {
        let rest = s.drop_last();
        trimmed_end_takes_whitespace(rest);
        assert forall|i: int| trimmed_end(s).len() <= i < s.len() implies whitespace(
            #[trigger] s[i],
        ) by {
            if i < rest.len() {
                assert(s[i] == rest[i]);
            }
        }
    }
}

/// The pieces of a text hold no separator, and each with a separator behind it
/// they make up the text with a separator behind it.
pub proof fn pieces_make_up_the_text(s: Seq<char>, sep: char)
    ensures
        split(s, sep).len() > 0,
        forall|i: int| 0 <= i < split(s, sep).len() ==> !(#[trigger] split(s, sep)[i]).contains(sep),
        split(s, sep).map_values(|piece: Seq<char>| piece.push(sep)).flatten() == s.push(sep),
    decreases s.len(),
{
    let closed = |piece: Seq<char>| piece.push(sep);
    let pieces = split(s, sep);
    let end = first_index(s, sep);
    first_index_bounds(s, sep);
    if end < s.len() {
        let rest = s.skip(end + 1);
        pieces_make_up_the_text(rest, sep);
        let first = s.take(end);
        assert(pieces == seq![first] + split(rest, sep));
        assert(!first.contains(sep)) by {
            if first.contains(sep) {
                let i = choose|i: int| 0 <= i < first.len() && first[i] == sep;
                assert(s[i] == sep);
            }
        }
        assert forall|i: int| 0 <= i < pieces.len() implies !(#[trigger] pieces[i]).contains(
            sep,
        ) by {
            if i > 0 {
                assert(pieces[i] == split(rest, sep)[i - 1]);
            }
        }
        let all = pieces.map_values(closed);
        assert(all.drop_first() =~= split(rest, sep).map_values(closed));
        assert(all.flatten() == first.push(sep) + rest.push(sep));
        assert(first.push(sep) + rest.push(sep) =~= s.push(sep));
    } else {
        assert(pieces == seq![s]);
        let all = pieces.map_values(closed);
        all.lemma_flatten_singleton();
        assert(all[0] == s.push(sep));
    }
}

/// Lower case moves the letters from A to Z by 32 code points and leaves all other
/// characters alone.
pub proof fn lowercase_moves_letters(s: Seq<char>)
    ensures
        lowercase(s).len() == s.len(),
        forall|i: int|
            0 <= i < s.len() ==> (if 65 <= #[trigger] s[i] as u32 <= 90 {
                lowercase(s)[i] as u32 == s[i] as u32 + 32
            } else {
                lowercase(s)[i] == s[i]
            }),
{
}

/// A digit behind a number makes it ten times as large and adds the digit, as long
/// as that fits; any other character makes it no number. A digit alone is itself.
pub proof fn numbers_are_read_digit_by_digit(s: Seq<char>, c: char)
    ensures
        48 <= c as u32 <= 57 ==> unsigned_value(seq![c]) == Some((c as u32 - 48) as u32),
        unsigned_value(s) is Some && 48 <= c as u32 <= 57 ==> unsigned_value(s.push(c)) == ({
            let value = 10 * unsigned_value(s)->0 + c as u32 - 48;
            if value <= 0xffff_ffff {
                Some(value as u32)
            } else {
                None
            }
        }),
        c as u32 > 57 || (c as u32) < 48 ==> unsigned_value(s.push(c)) is None,
        unsigned_value(Seq::empty()) is None,
{
    let one = seq![c];
    if 48 <= c as u32 <= 57 {
        assert(one.drop_last() =~= Seq::<char>::empty());
        assert(decimal_value(one.drop_last()) == 0);
        assert(unsigned_digits(one) == one);
        assert(decimal_digit(one[0]));
    }
    let more = s.push(c);
    if unsigned_value(s) is Some {
        let digits = unsigned_digits(s);
        assert(unsigned_digits(more) =~= digits.push(c));
        assert(digits.push(c).drop_last() =~= digits);
        if 48 <= c as u32 <= 57 {
            assert forall|i: int| 0 <= i < digits.push(c).len() implies decimal_digit(
                #[trigger] digits.push(c)[i],
            ) by {
                if i < digits.len() {
                    assert(decimal_digit(digits[i]));
                }
            }
        }
    }
    if c as u32 > 57 || (c as u32) < 48 {
        let digits = unsigned_digits(more);
        if digits.len() > 0 {
            assert(digits[digits.len() - 1] == c);
        }
    }
}

/// One plus sign in front of a number changes nothing, and two are no number.
pub proof fn plus_sign_stands_in_front(s: Seq<char>)
    ensures
        s.len() == 0 || s[0] != '+' ==> unsigned_value(seq!['+'] + s) == unsigned_value(s),
        s.len() > 0 && s[0] == '+' ==> unsigned_value(seq!['+'] + s) is None,
{
    let signed = seq!['+'] + s;
    assert(signed[0] == '+');
    assert(signed.skip(1) =~= s);
    if s.len() > 0 && s[0] == '+' {
        assert(!decimal_digit(s[0]));
    }
}

/// A negative number is written as its opposite with a minus sign in front.
pub proof fn negative_numbers_have_a_sign(n: nat)
    requires
        n > 0,
    ensures
        signed_decimal(-n) == seq!['-'] + signed_decimal(n as int),
        signed_decimal(n as int).len() > 0,
        signed_decimal(n as int)[0] != '-',
        forall|i: int|
            0 <= i < signed_decimal(n as int).len() ==> 48 <= #[trigger] signed_decimal(
                n as int,
            )[i] as u32 <= 57,
{
    decimal_reads_back(n);
    assert(decimal_digit(decimal(n)[0]));
}

/// A text begins with its front part and ends with its back part, and with nothing
/// else.
pub proof fn parts_stand_at_the_ends(s: Seq<char>, part: Seq<char>)
    ensures
        begins(s, part) <==> exists|rest: Seq<char>| s == #[trigger] (part + rest),
        ends(s, part) <==> exists|rest: Seq<char>| s == #[trigger] (rest + part),
{
    if begins(s, part) {
        assert(s =~= part + s.skip(part.len() as int));
    }
    if exists|rest: Seq<char>| s == #[trigger] (part + rest) {
        assert(s.take(part.len() as int) =~= part);
    }
    if ends(s, part) {
        assert(s =~= s.take(s.len() - part.len()) + part);
    }
    if exists|rest: Seq<char>| s == #[trigger] (rest + part) {
        assert(s.skip(s.len() - part.len()) =~= part);
    }
}

/// One slash stands between a directory and the name of an entry, whether the
/// directory brings it or not. Without a directory the name stands alone.
pub proof fn one_slash_stands_between(base: Seq<char>, name: Seq<char>)
    ensures
        joined_name(Seq::empty(), name) == name,
        joined_name(base.push('/'), name) == base + seq!['/'] + name,
        base.len() > 0 && base[base.len() - 1] != '/' ==> joined_name(base, name) == base + seq![
            '/',
        ] + name,
{
}

/// The first place where two texts differ decides their order, by the code points
/// there; where one ends it comes first.
pub proof fn first_difference_decides(a: Seq<char>, b: Seq<char>, k: int)
    requires
        0 <= k <= a.len(),
        k <= b.len(),
        forall|i: int| 0 <= i < k ==> a[i] == b[i],
    ensures
        k == a.len() ==> ordered(a, b),
        k == b.len() && k < a.len() ==> !ordered(a, b),
        k < a.len() && k < b.len() && a[k] != b[k] ==> (ordered(a, b) <==> (a[k] as u32) < (
        b[k] as u32)),
    decreases k,
{
    if k > 0 {
        let x = a.skip(1);
        let y = b.skip(1);
        assert(a[0] == b[0]);
        assert forall|i: int| 0 <= i < k - 1 implies x[i] == y[i] by {
            assert(x[i] == a[i + 1]);
            assert(y[i] == b[i + 1]);
        }
        first_difference_decides(x, y, k - 1);
        assert(ordered(a, b) == ordered(x, y));
        if k < a.len() && k < b.len() {
            assert(x[k - 1] == a[k]);
            assert(y[k - 1] == b[k]);
        }
    }
}

/// It does not matter which end is trimmed first.
pub proof fn ends_are_trimmed_in_any_order(s: Seq<char>)
    ensures
        trimmed_start(trimmed_end(s)) == trimmed_end(trimmed_start(s)),
    decreases s.len(),
{
    if s.len() > 0 && whitespace(s.last()) {
        let rest = s.drop_last();
        ends_are_trimmed_in_any_order(rest);
        trimmed_start_without_last(s);
    } else if s.len() > 0 {
        trimmed_start_keeps(s, s.len() - 1);
        trimmed_start_is_suffix(s);
        assert(trimmed_start(s).last() == s.last());
    }
}

proof fn trimmed_start_without_last(s: Seq<char>)
    requires
        s.len() > 0,
        whitespace(s.last()),
    ensures
        trimmed_end(trimmed_start(s.drop_last())) == trimmed_end(trimmed_start(s)),
    decreases s.len(),
{
    if whitespace(s[0]) {
        if s.len() > 1 {
            assert(s.skip(1).last() == s.last());
            assert(s.drop_last().skip(1) =~= s.skip(1).drop_last());
            trimmed_start_without_last(s.skip(1));
        } else {
            assert(s.skip(1) =~= s.drop_last());
        }
    } else {
        assert(s.drop_last().len() > 0);
    }
}

/// Strings say their texts, one by one and in their order.
pub proof fn strings_say_their_texts(strings: Seq<String>, i: int)
    requires
        0 <= i < strings.len(),
    ensures
        texts_of(strings).len() == strings.len(),
        texts_of(strings)[i] == strings[i]@,
{
}

/// Trimming one end and then both is trimming both.
pub proof fn trimming_again(s: Seq<char>)
    ensures
        trimmed(trimmed_start(s)) == trimmed(s),
        trimmed(trimmed_end(s)) == trimmed(s),
{
    trimmed_start_is_suffix(s);
    trimmed_end_is_prefix(s);
    ends_are_trimmed_in_any_order(s);
    ends_are_trimmed_in_any_order(trimmed_end(s));
}

/// What is left after trimming was there before.
pub proof fn trimmed_is_part(s: Seq<char>, c: char)
    requires
        trimmed(s).contains(c),
    ensures
        s.contains(c),
{
    trimming_takes_whitespace_off(s);
    let (from, to) = choose|from: int, to: int|
        0 <= from <= to <= s.len() && trimmed(s) == #[trigger] s.subrange(from, to) && (forall|
            i: int,
        |
            0 <= i < from || to <= i < s.len() ==> whitespace(#[trigger] s[i]));
    let k = choose|k: int| 0 <= k < trimmed(s).len() && trimmed(s)[k] == c;
    assert(s[from + k] == c);
}

/// Whitespace in front of a text does not change what is left of it.
pub proof fn leading_whitespace_goes(gap: Seq<char>, rest: Seq<char>)
    requires
        forall|i: int| 0 <= i < gap.len() ==> whitespace(#[trigger] gap[i]),
    ensures
        trimmed(gap + rest) == trimmed(rest),
    decreases gap.len(),
{
    if gap.len() == 0 {
        assert(gap + rest =~= rest);
    } else {
        assert((gap + rest)[0] == gap[0]);
        assert((gap + rest).skip(1) =~= gap.skip(1) + rest);
        assert forall|i: int| 0 <= i < gap.skip(1).len() implies whitespace(
            #[trigger] gap.skip(1)[i],
        ) by {
            assert(gap.skip(1)[i] == gap[i + 1]);
        }
        leading_whitespace_goes(gap.skip(1), rest);
    }
}

/// Ten times a number and a digit more is written as the number with the digit
/// behind it, and a number below ten as its digit.
pub proof fn numbers_are_written_digit_by_digit(n: nat, digit: nat)
    requires
        digit < 10,
    ensures
        n > 0 ==> signed_decimal((10 * n + digit) as int) == signed_decimal(n as int).push(
            (48 + digit) as u8 as char,
        ),
        signed_decimal(digit as int) == seq![(48 + digit) as u8 as char],
{
    if n > 0 {
        assert((10 * n + digit) / 10 == n && (10 * n + digit) % 10 == digit);
    }
}

} // verus!
