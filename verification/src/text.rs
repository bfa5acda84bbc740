//! Text: decimal numbers, message building and the splitting of configuration lines.
use vstd::prelude::*;

verus! {

/// `String::push` appends one character.
pub assume_specification[ String::push ](s: &mut String, c: char)
    ensures
        final(s)@ == old(s)@.push(c),
;

/// The character of a decimal digit.
pub open spec fn digit_char(d: nat) -> char {
    (48 + d) as char
}

/// The decimal notation of `n`, without leading zeros.
pub open spec fn dec(n: nat) -> Seq<char>
    decreases n,
{
    if n < 10 {
        seq![digit_char(n)]
    } else {
        dec(n / 10).push(digit_char(n % 10))
    }
}

/// The decimal notation of `n`.
pub fn decimal(n: u64) -> (r: String)
    ensures
        r@ == dec(n as nat),
    decreases n,
{
    if n < 10 {
        let mut s = String::new();
        s.push((48 + n as u8) as char);
        assert(s@ =~= dec(n as nat));
        s
    } else {
        let mut s = decimal(n / 10);
        s.push((48 + (n % 10) as u8) as char);
        s
    }
}

/// A message with one number in it.
pub fn message1(before: &str, n: u64, after: &str) -> (r: String)
    ensures
        r@ == before@ + dec(n as nat) + after@,
{
    let d = decimal(n);
    String::from_str(before).concat(d.as_str()).concat(after)
}

/// A message with two numbers in it.
pub fn message2(before: &str, n: u64, between: &str, m: u64, after: &str) -> (r: String)
    ensures
        r@ == before@ + dec(n as nat) + between@ + dec(m as nat) + after@,
{
    let d = decimal(m);
    message1(before, n, between).concat(d.as_str()).concat(after)
}

/// A message with three numbers in it.
pub fn message3(a: &str, n: u64, b: &str, m: u64, c: &str, k: u64) -> (r: String)
    ensures
        r@ == a@ + dec(n as nat) + b@ + dec(m as nat) + c@ + dec(k as nat),
{
    let d = decimal(k);
    message2(a, n, b, m, c).concat(d.as_str())
}

/// A message with another text in it.
pub fn message_text(before: &str, text: &str, after: &str) -> (r: String)
    ensures
        r@ == before@ + text@ + after@,
{
    String::from_str(before).concat(text).concat(after)
}

/// The numbers of a byte string in decimal, with commas between them.
pub open spec fn items_text(s: Seq<u8>) -> Seq<char>
    decreases s.len(),
{
    if s.len() == 0 {
        Seq::empty()
    } else if s.len() == 1 {
        dec(s[0] as nat)
    } else {
        items_text(s.drop_last()) + ", "@ + dec(s.last() as nat)
    }
}

/// The numbers of a byte string in brackets: `[1, 2, 3]`.
pub open spec fn list_text(s: Seq<u8>) -> Seq<char> {
    "["@ + items_text(s) + "]"@
}

/// The numbers of a byte string in brackets.
pub fn byte_list(data: &[u8]) -> (r: String)
    ensures
        r@ == list_text(data@),
{
    let mut items = String::new();
    let mut i: usize = 0;
    while i < data.len()
        invariant
            i <= data@.len(),
            items@ == items_text(data@.take(i as int)),
        decreases data@.len() - i,
    {
        assert(data@.take(i + 1).drop_last() =~= data@.take(i as int));
        let d = decimal(data[i] as u64);
        if i == 0 {
            items = d;
        } else {
            items.append(", ");
            items.append(d.as_str());
        }
        i = i + 1;
    }
    assert(data@.take(i as int) =~= data@);
    message_text("[", items.as_str(), "]")
}

/// The character of a hexadecimal digit.
pub open spec fn hex_char(d: nat) -> char {
    if d < 10 {
        (48 + d) as char
    } else {
        (87 + d) as char
    }
}

/// A byte string in hexadecimal, two digits a byte, with colons between the bytes.
pub open spec fn colon_hex(s: Seq<u8>) -> Seq<char>
    decreases s.len(),
{
    if s.len() == 0 {
        Seq::empty()
    } else {
        let pair = seq![hex_char(s.last() as nat / 16), hex_char(s.last() as nat % 16)];
        if s.len() == 1 {
            pair
        } else {
            colon_hex(s.drop_last()) + seq![':'] + pair
        }
    }
}

/// The character of a hexadecimal digit.
pub fn hex_digit(d: u8) -> (c: char)
    requires
        d < 16,
    ensures
        c == hex_char(d as nat),
{
    if d < 10 {
        (48 + d) as char
    } else {
        (87 + d) as char
    }
}

/// A byte string in hexadecimal with colons between the bytes.
pub fn hex_with_colons(data: &[u8]) -> (r: String)
    ensures
        r@ == colon_hex(data@),
{
    let mut r = String::new();
    let mut i: usize = 0;
    while i < data.len()
        invariant
            i <= data@.len(),
            r@ == colon_hex(data@.take(i as int)),
        decreases data@.len() - i,
    {
        assert(data@.take(i + 1).drop_last() =~= data@.take(i as int));
        let ghost before = r@;
        if i > 0 {
            r.push(':');
        }
        r.push(hex_digit(data[i] / 16));
        r.push(hex_digit(data[i] % 16));
        assert(r@ =~= colon_hex(data@.take(i + 1)));
        i = i + 1;
    }
    assert(data@.take(i as int) =~= data@);
    r
}

/// The parts of a text between the occurrences of a separator: always at least one.
pub open spec fn split_on(s: Seq<char>, sep: char) -> Seq<Seq<char>>
    decreases s.len(),
{
    if s.len() == 0 {
        seq![Seq::empty()]
    } else {
        let parts = split_on(s.drop_last(), sep);
        if s.last() == sep {
            parts.push(Seq::empty())
        } else {
            parts.drop_last().push(parts.last().push(s.last()))
        }
    }
}

/// What a list of character lists holds.
pub open spec fn deep(v: Seq<Vec<char>>) -> Seq<Seq<char>> {
    v.map_values(|x: Vec<char>| x@)
}

/// The characters of a text.
pub fn chars_of(s: &str) -> (r: Vec<char>)
    ensures
        r@ == s@,
{
    let mut r: Vec<char> = Vec::new();
    for c in it: s.chars()
        invariant
            r@ == it.seq().take(it.index() as int),
            it.seq() == s@,
    {
        r.push(c);
        assert(r@ =~= it.seq().take(it.index() as int + 1));
    }
    assert(r@ =~= s@);
    r
}

/// The text of a list of characters.
pub fn string_of(v: &[char]) -> (r: String)
    ensures
        r@ == v@,
{
    let mut r = String::new();
    let mut i: usize = 0;
    while i < v.len()
        invariant
            i <= v@.len(),
            r@ == v@.take(i as int),
        decreases v@.len() - i,
    {
        r.push(v[i]);
        i = i + 1;
        assert(r@ =~= v@.take(i as int));
    }
    assert(r@ =~= v@);
    r
}

pub proof fn lemma_split_on_nonempty(s: Seq<char>, sep: char)
    ensures
        split_on(s, sep).len() >= 1,
    decreases s.len(),
{
    if s.len() > 0 {
        lemma_split_on_nonempty(s.drop_last(), sep);
    }
}

/// The parts of a text between the occurrences of a separator.
pub fn split_chars(v: &[char], sep: char) -> (r: Vec<Vec<char>>)
    ensures
        deep(r@) == split_on(v@, sep),
{
    let mut parts: Vec<Vec<char>> = Vec::new();
    let mut cur: Vec<char> = Vec::new();
    let mut i: usize = 0;
    assert(deep(parts@).push(cur@) =~= split_on(v@.take(0), sep));
    while i < v.len()
        invariant
            i <= v@.len(),
            deep(parts@).push(cur@) == split_on(v@.take(i as int), sep),
        decreases v@.len() - i,
    {
        let ghost old_parts = deep(parts@).push(cur@);
        let ghost old_cur = cur@;
        assert(v@.take(i + 1).drop_last() =~= v@.take(i as int));
        let c = v[i];
        if c == sep {
            let done = cur;
            cur = Vec::new();
            parts.push(done);
            assert(deep(parts@) =~= old_parts);
            assert(deep(parts@).push(cur@) =~= split_on(v@.take(i + 1), sep));
        } else {
            cur.push(c);
            assert(old_parts.drop_last() =~= deep(parts@));
            assert(deep(parts@).push(cur@) =~= split_on(v@.take(i + 1), sep));
        }
        i = i + 1;
    }
    assert(v@.take(i as int) =~= v@);
    let ghost all = deep(parts@).push(cur@);
    parts.push(cur);
    assert(deep(parts@) =~= all);
    parts
}

/// The white space characters of Unicode.
pub open spec fn is_white(c: char) -> bool {
    let n = c as u32;
    9 <= n <= 13 || n == 0x20 || n == 0x85 || n == 0xA0 || n == 0x1680 || 0x2000 <= n <= 0x200A || n
        == 0x2028 || n == 0x2029 || n == 0x202F || n == 0x205F || n == 0x3000
}

/// True of white space.
pub fn white(c: char) -> (r: bool)
    ensures
        r == is_white(c),
{
    let n: u32 = c as u32;
    (9 <= n && n <= 13) || n == 0x20 || n == 0x85 || n == 0xA0 || n == 0x1680 || (0x2000 <= n && n
        <= 0x200A) || n == 0x2028 || n == 0x2029 || n == 0x202F || n == 0x205F || n == 0x3000
}

/// A text without the white space at its start.
pub open spec fn trim_start(s: Seq<char>) -> Seq<char>
    decreases s.len(),
{
    if s.len() > 0 && is_white(s[0]) {
        trim_start(s.skip(1))
    } else {
        s
    }
}

/// A text without the white space at its end.
pub open spec fn trim_end(s: Seq<char>) -> Seq<char>
    decreases s.len(),
{
    if s.len() > 0 && is_white(s.last()) {
        trim_end(s.drop_last())
    } else {
        s
    }
}

/// A text without the white space at either end.
pub open spec fn trimmed(s: Seq<char>) -> Seq<char> {
    trim_end(trim_start(s))
}

/// A text without any white space.
pub open spec fn without_white(s: Seq<char>) -> Seq<char>
    decreases s.len(),
{
    if s.len() == 0 {
        Seq::empty()
    } else if is_white(s.last()) {
        without_white(s.drop_last())
    } else {
        without_white(s.drop_last()).push(s.last())
    }
}

/// A text without the white space at either end.
pub fn trim_chars(v: &[char]) -> (r: Vec<char>)
    ensures
        r@ == trimmed(v@),
{
    let n: usize = v.len();
    let mut from: usize = 0;
    assert(v@.skip(0) =~= v@);
    while from < n && white(v[from])
        invariant
            from <= n == v@.len(),
            trim_start(v@.skip(from as int)) == trim_start(v@),
        decreases n - from,
    {
        assert(v@.skip(from as int).skip(1) =~= v@.skip(from + 1));
        from = from + 1;
    }
    let ghost body = v@.skip(from as int);
    assert(trim_start(v@) == body);
    let mut to: usize = n;
    assert(v@.subrange(from as int, n as int) =~= body);
    while to > from && white(v[to - 1])
        invariant
            from <= to <= n == v@.len(),
            trim_end(v@.subrange(from as int, to as int)) == trim_end(body),
        decreases to - from,
    {
        assert(v@.subrange(from as int, to as int).drop_last() =~= v@.subrange(
            from as int,
            to - 1,
        ));
        to = to - 1;
    }
    vstd::slice::slice_to_vec(vstd::slice::slice_subrange(v, from, to))
}

/// A text without any white space.
pub fn remove_white(v: &[char]) -> (r: Vec<char>)
    ensures
        r@ == without_white(v@),
{
    let mut r: Vec<char> = Vec::new();
    let mut i: usize = 0;
    while i < v.len()
        invariant
            i <= v@.len(),
            r@ == without_white(v@.take(i as int)),
        decreases v@.len() - i,
    {
        assert(v@.take(i + 1).drop_last() =~= v@.take(i as int));
        if !white(v[i]) {
            r.push(v[i]);
        }
        i = i + 1;
    }
    assert(v@.take(i as int) =~= v@);
    r
}

/// True of the decimal digits.
pub open spec fn is_digit(c: char) -> bool {
    '0' <= c <= '9'
}

/// The number that decimal digits denote.
pub open spec fn digits_value(s: Seq<char>) -> nat
    decreases s.len(),
{
    if s.len() == 0 {
        0
    } else {
        digits_value(s.drop_last()) * 10 + (s.last() as nat - '0' as nat) as nat
    }
}

/// A text without a plus sign in front, where something follows it.
pub open spec fn unsigned_digits(s: Seq<char>) -> Seq<char> {
    if s.len() > 1 && s[0] == '+' {
        s.skip(1)
    } else {
        s
    }
}

/// The number that a text denotes: decimal digits after an optional plus sign, at most `max`.
pub open spec fn parse_number(s: Seq<char>, max: nat) -> Option<nat> {
    let d = unsigned_digits(s);
    if d.len() > 0 && (forall|i: int| 0 <= i < d.len() ==> is_digit(#[trigger] d[i]))
        && digits_value(d) <= max {
        Some(digits_value(d))
    } else {
        None
    }
}

/// The number that a text denotes.
pub fn number_of(v: &[char], max: u64) -> (r: Option<u64>)
    requires
        max <= 0xffff_ffff,
    ensures
        match r {
            Some(n) => parse_number(v@, max as nat) == Some(n as nat),
            None => parse_number(v@, max as nat) is None,
        },
{
    let n: usize = v.len();
    let from: usize = if n > 1 && v[0] == '+' {
        1
    } else {
        0
    };
    let ghost d = unsigned_digits(v@);
    assert(d =~= v@.skip(from as int));
    if n == 0 {
        return None;
    }
    let mut value: u64 = 0;
    let mut over = false;
    let mut i: usize = from;
    while i < n
        invariant
            from <= i <= n == v@.len(),
            d == v@.skip(from as int),
            d == unsigned_digits(v@),
            max <= 0xffff_ffff,
            forall|j: int| 0 <= j < i - from ==> is_digit(#[trigger] d[j]),
            over ==> digits_value(d.take(i - from)) > max,
            !over ==> value == digits_value(d.take(i - from)) && value <= max,
        decreases n - i,
    {
        let c: char = v[i];
        assert(d[i - from] == c);
        if c < '0' || c > '9' {
            assert(!is_digit(d[i - from]));
            return None;
        }
        assert(d.take(i + 1 - from).drop_last() =~= d.take(i - from));
        if !over {
            value = value * 10 + (c as u64 - '0' as u64);
            if value > max {
                over = true;
            }
        }
        i = i + 1;
    }
    assert(d.take(i - from) =~= d);
    if over {
        None
    } else {
        Some(value)
    }
}

/// True when `v` starts with `prefix`.
pub fn has_prefix(v: &[char], prefix: &[char]) -> (r: bool)
    ensures
        r == (v@.len() >= prefix@.len() && v@.take(prefix@.len() as int) == prefix@),
{
    if v.len() < prefix.len() {
        return false;
    }
    let mut i: usize = 0;
    while i < prefix.len()
        invariant
            i <= prefix@.len() <= v@.len(),
            forall|j: int| 0 <= j < i ==> v@[j] == prefix@[j],
        decreases prefix@.len() - i,
    {
        if v[i] != prefix[i] {
            assert(v@.take(prefix@.len() as int)[i as int] != prefix@[i as int]);
            return false;
        }
        i = i + 1;
    }
    assert(v@.take(prefix@.len() as int) =~= prefix@);
    true
}

/// The words of a text: its runs of characters that are not white space.
pub open spec fn words(s: Seq<char>) -> Seq<Seq<char>>
    decreases s.len(),
{
    if s.len() == 0 {
        Seq::empty()
    } else {
        let before = words(s.drop_last());
        if is_white(s.last()) {
            before
        } else if s.len() == 1 || is_white(s[s.len() - 2]) {
            before.push(seq![s.last()])
        } else {
            before.drop_last().push(before.last().push(s.last()))
        }
    }
}

/// The words of a text.
pub fn words_of(v: &[char]) -> (r: Vec<Vec<char>>)
    ensures
        deep(r@) == words(v@),
{
    let mut done: Vec<Vec<char>> = Vec::new();
    let mut cur: Vec<char> = Vec::new();
    let mut inside = false;
    let mut i: usize = 0;
    assert(deep(done@) =~= words(v@.take(0)));
    while i < v.len()
        invariant
            i <= v@.len(),
            inside == (i > 0 && !is_white(v@[i - 1])),
            inside ==> words(v@.take(i as int)) == deep(done@).push(cur@),
            !inside ==> words(v@.take(i as int)) == deep(done@),
        decreases v@.len() - i,
    {
        let ghost head = v@.take(i as int);
        let ghost before = deep(done@);
        let ghost cur_before = cur@;
        assert(v@.take(i + 1).drop_last() =~= head);
        let c: char = v[i];
        if white(c) {
            if inside {
                let word = cur;
                cur = Vec::new();
                done.push(word);
                assert(deep(done@) =~= before.push(word@));
            }
            inside = false;
        } else {
            if inside {
                cur.push(c);
                assert(before.push(cur_before).drop_last() =~= before);
            } else {
                cur = Vec::new();
                cur.push(c);
                assert(cur@ =~= seq![c]);
            }
            inside = true;
        }
        i = i + 1;
    }
    assert(v@.take(i as int) =~= v@);
    if inside {
        let ghost before = deep(done@);
        let ghost last = cur@;
        done.push(cur);
        assert(deep(done@) =~= before.push(last));
    }
    done
}

/// A text without the separator is one part.
pub proof fn law_split_whole(s: Seq<char>, sep: char)
    requires
        forall|i: int| 0 <= i < s.len() ==> #[trigger] s[i] != sep,
    ensures
        split_on(s, sep) == seq![s],
    decreases s.len(),
{
    if s.len() > 0 {
        law_split_whole(s.drop_last(), sep);
        assert(s.drop_last().push(s.last()) =~= s);
        assert(split_on(s, sep) =~= seq![s]);
    } else {
        assert(s =~= Seq::<char>::empty());
    }
}

/// The parts of two texts with the separator between them are the parts of the first and those of the
/// second.
pub proof fn law_split_joined(a: Seq<char>, b: Seq<char>, sep: char)
    ensures
        split_on(a + seq![sep] + b, sep) == split_on(a, sep) + split_on(b, sep),
    decreases b.len(),
{
    let s = a + seq![sep] + b;
    if b.len() == 0 {
        assert(s.drop_last() =~= a);
        assert(split_on(s, sep) =~= split_on(a, sep) + split_on(b, sep));
    } else {
        law_split_joined(a, b.drop_last(), sep);
        lemma_split_on_nonempty(b.drop_last(), sep);
        assert(s.drop_last() =~= a + seq![sep] + b.drop_last());
        assert(split_on(s, sep) =~= split_on(a, sep) + split_on(b, sep));
    }
}

/// The decimal notation of a number consists of digits, starts with a zero only for zero, and reads
/// back as the number, also with a plus sign in front. It is refused where the number is too large.
pub proof fn law_decimal(n: nat, max: nat)
    ensures
        forall|i: int| 0 <= i < dec(n).len() ==> '0' <= #[trigger] dec(n)[i] <= '9',
        dec(n).len() > 0,
        dec(n)[0] == '0' <==> n == 0,
        digits_value(dec(n)) == n,
        n <= max ==> parse_number(dec(n), max) == Some(n),
        n > max ==> parse_number(dec(n), max) is None,
        parse_number(seq!['+'] + dec(n), max) == parse_number(dec(n), max),
    decreases n,
{
    assert(digit_char(n % 10) as nat == 48 + n % 10);
    if n < 10 {
        assert(dec(n).drop_last() =~= Seq::<char>::empty());
        assert(digits_value(dec(n).drop_last()) == 0);
    } else {
        law_decimal(n / 10, max);
        assert(dec(n).drop_last() =~= dec(n / 10));
        assert(dec(n)[0] == dec(n / 10)[0]);
    }
    assert(unsigned_digits(dec(n)) == dec(n));
    assert((seq!['+'] + dec(n)).skip(1) =~= dec(n));
}

/// The value of digits: each further one multiplies what stands before it by ten.
pub proof fn law_digits(s: Seq<char>, c: char)
    requires
        '0' <= c <= '9',
    ensures
        digits_value(Seq::empty()) == 0,
        digits_value(s.push(c)) == 10 * digits_value(s) + (c as nat - 48),
{
    assert(s.push(c).drop_last() =~= s);
}

/// A text with anything else than digits in it is no number, but for one plus sign in front. Neither
/// is an empty text.
pub proof fn law_no_number(s: Seq<char>, max: nat, i: int)
    ensures
        parse_number(Seq::empty(), max) is None,
        parse_number(seq!['+'], max) is None,
        0 <= i < s.len() && !('0' <= s[i] <= '9') && (i > 0 || s[i] != '+') ==> parse_number(
            s,
            max,
        ) is None,
{
    let d = unsigned_digits(seq!['+']);
    assert(!is_digit(d[0]));
    if 0 <= i < s.len() && !('0' <= s[i] <= '9') && (i > 0 || s[i] != '+') {
        let u = unsigned_digits(s);
        if s.len() > 1 && s[0] == '+' {
            assert(!is_digit(u[i - 1]));
        } else {
            assert(!is_digit(u[i]));
        }
    }
}

/// Among the ASCII characters the space and the five control characters from tab to carriage return
/// are white space.
pub proof fn law_white(c: char)
    requires
        (c as u32) < 128,
    ensures
        is_white(c) <==> c == ' ' || 9 <= (c as u32) <= 13,
{
}

/// True of a text that consists of white space.
pub open spec fn all_white(s: Seq<char>) -> bool {
    forall|i: int| 0 <= i < s.len() ==> is_white(#[trigger] s[i])
}

/// Trimming takes the white space off both ends and nothing else.
pub proof fn law_trimmed(before: Seq<char>, s: Seq<char>, after: Seq<char>)
    requires
        all_white(before),
        all_white(after),
        s.len() > 0 ==> !is_white(s[0]) && !is_white(s.last()),
    ensures
        trimmed(before + s + after) == s,
    decreases before.len() + after.len(),
{
    let t = before + s + after;
    if before.len() > 0 {
        assert(t[0] == before[0]);
        assert(t.skip(1) =~= before.skip(1) + s + after);
        assert forall|i: int| 0 <= i < before.skip(1).len() implies is_white(
            #[trigger] before.skip(1)[i],
        ) by {
            assert(before.skip(1)[i] == before[i + 1]);
        }
        law_trimmed(before.skip(1), s, after);
    } else if after.len() > 0 {
        law_trimmed(before, s, after.drop_last());
        assert(t.drop_last() =~= before + s + after.drop_last());
        assert(t.last() == after.last() && is_white(after[after.len() - 1]));
        if s.len() > 0 {
            assert(t[0] == s[0]);
            assert(t.drop_last()[0] == s[0]);
        } else {
            assert(t[0] == after[0]);
            assert(t =~= after);
            assert(t.skip(1) =~= after.skip(1));
            assert forall|i: int| 0 <= i < after.skip(1).len() implies is_white(
                #[trigger] after.skip(1)[i],
            ) by {
                assert(after.skip(1)[i] == after[i + 1]);
            }
            law_trimmed(before, s, after.skip(1));
            assert(before + s + after.skip(1) =~= after.skip(1));
        }
    } else {
        assert(t =~= s);
    }
}

/// White space is removed wherever it stands, and everything else stays in order.
pub proof fn law_without_white(a: Seq<char>, c: char, b: Seq<char>)
    ensures
        without_white(Seq::empty()) == Seq::<char>::empty(),
        without_white(a + seq![c] + b) == if is_white(c) {
            without_white(a) + without_white(b)
        } else {
            without_white(a) + seq![c] + without_white(b)
        },
    decreases b.len(),
{
    let s = a + seq![c] + b;
    if b.len() == 0 {
        assert(s.drop_last() =~= a);
        assert(without_white(a).push(c) =~= without_white(a) + seq![c] + without_white(b));
    } else {
        law_without_white(a, c, b.drop_last());
        assert(s.drop_last() =~= a + seq![c] + b.drop_last());
        assert(s.last() == b.last());
    }
}

/// A text without white space is one word.
pub proof fn law_one_word(w: Seq<char>)
    requires
        w.len() > 0,
        forall|i: int| 0 <= i < w.len() ==> !is_white(#[trigger] w[i]),
    ensures
        words(w) == seq![w],
    decreases w.len(),
{
    assert(!is_white(w[w.len() - 1]));
    if w.len() == 1 {
        assert(words(w.drop_last()).len() == 0);
        assert(w =~= seq![w.last()]);
        assert(words(w) =~= seq![w]);
    } else {
        law_one_word(w.drop_last());
        assert(w.drop_last().push(w.last()) =~= w);
        assert(!is_white(w[w.len() - 2]));
        assert(words(w) =~= seq![w]);
    }
}

proof fn lemma_last_word(s: Seq<char>)
    requires
        s.len() > 0,
        !is_white(s.last()),
    ensures
        words(s).len() > 0,
{
}

/// The words of two texts with white space between them are those of the first and then those of
/// the second. A text of white space has none.
pub proof fn law_words_joined(a: Seq<char>, c: char, b: Seq<char>)
    requires
        is_white(c),
    ensures
        words(a + seq![c] + b) == words(a) + words(b),
        words(Seq::empty()).len() == 0,
    decreases b.len(),
{
    let s = a + seq![c] + b;
    if b.len() == 0 {
        assert(s.drop_last() =~= a);
        assert(words(s) =~= words(a) + words(b));
    } else {
        let head = b.drop_last();
        law_words_joined(a, c, head);
        assert(s.drop_last() =~= a + seq![c] + head);
        assert(s.last() == b.last());
        if b.len() > 1 {
            assert(s[s.len() - 2] == b[b.len() - 2]);
            assert(head.last() == b[b.len() - 2]);
            if !is_white(head.last()) {
                lemma_last_word(head);
            }
        } else {
            assert(s[s.len() - 2] == c);
        }
        assert(words(s) =~= words(a) + words(b));
    }
}

/// Byte `i` stands at `3 * i` as two hexadecimal digits in lower case, the higher one first, and a
/// colon follows it where another byte does.
pub proof fn law_colon_hex(s: Seq<u8>, i: int)
    requires
        0 <= i < s.len(),
    ensures
        colon_hex(s).len() == 3 * s.len() - 1,
        colon_hex(s)[3 * i] == hex_char((s[i] / 16) as nat),
        colon_hex(s)[3 * i + 1] == hex_char((s[i] % 16) as nat),
        i + 1 < s.len() ==> colon_hex(s)[3 * i + 2] == ':',
        forall|d: nat| d < 10 ==> #[trigger] hex_char(d) as nat == '0' as nat + d,
        forall|d: nat| 10 <= d < 16 ==> #[trigger] hex_char(d) as nat == 'a' as nat + d - 10,
    decreases s.len(),
{
    if s.len() > 1 {
        law_colon_hex(s.drop_last(), if i + 1 < s.len() { i } else { i - 1 });
    }
}

/// The list of some numbers followed by others is their lists with a comma and a space between
/// them; that of one number is its decimal notation; brackets stand round a whole list.
pub proof fn law_list_text(a: Seq<u8>, b: Seq<u8>, n: u8)
    ensures
        list_text(a) == seq!['['] + items_text(a) + seq![']'],
        items_text(Seq::empty()).len() == 0,
        items_text(seq![n]) == dec(n as nat),
        a.len() > 0 && b.len() > 0 ==> items_text(a + b) == items_text(a) + seq![',', ' '] + items_text(
            b,
        ),
    decreases b.len(),
{
    reveal_strlit("[");
    reveal_strlit("]");
    reveal_strlit(", ");
    assert("["@ =~= seq!['['] && "]"@ =~= seq![']'] && ", "@ =~= seq![',', ' ']);
    if a.len() > 0 && b.len() > 0 {
        assert((a + b).drop_last() =~= a + b.drop_last());
        if b.len() > 1 {
            law_list_text(a, b.drop_last(), n);
        } else {
            assert(a + b.drop_last() =~= a);
            assert(b =~= seq![b[0]]);
        }
        assert(items_text(a + b) =~= items_text(a) + seq![',', ' '] + items_text(b));
    }
}

/// What follows white space stays the first character when a text is trimmed.
pub proof fn law_trimmed_start(white: Seq<char>, c: char, rest: Seq<char>)
    requires
        all_white(white),
        !is_white(c),
    ensures
        trimmed(white + seq![c] + rest).len() > 0,
        trimmed(white + seq![c] + rest)[0] == c,
    decreases rest.len(),
{
    if rest.len() == 0 {
        law_trimmed(white, seq![c], rest);
    } else if is_white(rest.last()) {
        let head = rest.drop_last();
        law_trimmed_start(white, c, head);
        let s = white + seq![c] + rest;
        let t = white + seq![c] + head;
        assert(s =~= t.push(rest.last()));
        lemma_trim_push(t, rest.last(), white.len() as int);
    } else {
        let mid = seq![c] + rest;
        assert(white + seq![c] + rest =~= white + mid + Seq::<char>::empty());
        assert(mid.last() == rest.last());
        law_trimmed(white, mid, Seq::empty());
    }
}

/// White space at the end of a text that has something else in it changes nothing.
proof fn lemma_trim_push(t: Seq<char>, c: char, i: int)
    requires
        is_white(c),
        0 <= i < t.len(),
        !is_white(t[i]),
    ensures
        trimmed(t.push(c)) == trimmed(t),
    decreases t.len(),
{
    let s = t.push(c);
    if is_white(t[0]) {
        assert(s.skip(1) =~= t.skip(1).push(c));
        assert(t.skip(1)[i - 1] == t[i]);
        lemma_trim_push(t.skip(1), c, i - 1);
    } else {
        assert(s.drop_last() =~= t);
    }
}

} // verus!
