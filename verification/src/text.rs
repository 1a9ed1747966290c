//! Text: what counts as a printable value, and how nodes are rendered.
use vstd::prelude::*;
use vstd::utf8;

verus! {

/// Whether a byte is a printable ASCII character.
pub open spec fn printable(b: u8) -> bool {
    32 <= b < 127
}

/// Whether every byte is a printable ASCII character.
pub open spec fn all_printable(bytes: Seq<u8>) -> bool {
    forall|i: int| 0 <= i < bytes.len() ==> printable(#[trigger] bytes[i])
}

/// The text of ASCII bytes: one character for each.
pub open spec fn ascii_text(bytes: Seq<u8>) -> Seq<char> {
    Seq::new(bytes.len(), |i: int| bytes[i] as char)
}

/// The text of any bytes, with a replacement character for what is no UTF-8.
pub uninterp spec fn lossy_text(bytes: Seq<u8>) -> Seq<char>;

/// `String::from_utf8_lossy`: what it returns depends on the bytes alone, and where
/// they are valid UTF-8 it is what they encode. What stands for invalid bytes is not
/// stated.
#[verifier::external_body]
pub(crate) fn text_of(bytes: &[u8]) -> (r: String)
    ensures
        r@ == lossy_text(bytes@),
        utf8::valid_utf8(bytes@) ==> r@ == utf8::decode_utf8(bytes@),
{
    String::from_utf8_lossy(bytes).into_owned()
}

/// Bytes are printable where each is from 0x20, the space, to 0x7E, the tilde, and the text that
/// they are has their numbers.
pub proof fn printable_by_number(bytes: Seq<u8>)
    ensures
        all_printable(bytes) <==> forall|i: int|
            0 <= i < bytes.len() ==> 0x20 <= #[trigger] bytes[i] <= 0x7E,
        ascii_text(bytes).len() == bytes.len(),
        forall|i: int|
            0 <= i < bytes.len() ==> #[trigger] ascii_text(bytes)[i] as int == bytes[i] as int,
{
    if forall|i: int| 0 <= i < bytes.len() ==> 0x20 <= #[trigger] bytes[i] <= 0x7E {
        assert forall|i: int| 0 <= i < bytes.len() implies printable(#[trigger] bytes[i]) by {}
    }
    if all_printable(bytes) {
        assert forall|i: int| 0 <= i < bytes.len() implies 0x20 <= #[trigger] bytes[i] <= 0x7E by {
            assert(printable(bytes[i]));
        }
    }
}

/// Printable bytes are UTF-8, of the characters that they are.
pub proof fn printable_is_utf8(bytes: Seq<u8>)
    requires
        all_printable(bytes),
    ensures
        utf8::valid_utf8(bytes),
        utf8::decode_utf8(bytes) == ascii_text(bytes),
{
    let chars = ascii_text(bytes);
    assert(utf8::is_ascii_chars(chars)) by {
        assert forall|i: int| 0 <= i < chars.len() implies '\0' <= #[trigger] chars[i]
            <= '\u{7f}' by {
            assert(printable(bytes[i]));
        }
    }
    utf8::is_ascii_chars_encode_utf8(chars);
    assert(utf8::encode_utf8(chars) =~= bytes) by {
        assert forall|i: int| 0 <= i < bytes.len() implies utf8::encode_utf8(chars)[i]
            == bytes[i] by {
            assert(printable(bytes[i]));
            let b = bytes[i];
            let c = chars[i];
            assert(c as u8 == utf8::encode_utf8(chars)[i]);
            assert(c as u32 == b as u32);
        }
    }
    utf8::encode_utf8_valid_utf8(chars);
    utf8::encode_utf8_decode_utf8(chars);
}

/// True when every byte is printable ASCII.
pub fn is_str(value: &[u8]) -> (r: bool)
    ensures
        r == all_printable(value@),
        r <==> forall|i: int| 0 <= i < value@.len() ==> 0x20 <= #[trigger] value@[i] <= 0x7E,
{
    proof {
        printable_by_number(value@);
    }
    let mut i: usize = 0;
    while i < value.len()
        invariant
            i <= value@.len(),
            forall|j: int| 0 <= j < i ==> printable(#[trigger] value@[j]),
        decreases value@.len() - i,
    {
        let ch: u8 = value[i];
        if !(ch.wrapping_sub(32) < 95) {
            assert(!printable(value@[i as int]));
            return false;
        }
        i = i + 1;
    }
    true
}

/// The hexadecimal digits.
pub open spec fn digit(d: int) -> char {
    if d < 10 {
        (48 + d) as char
    } else {
        (55 + d) as char
    }
}

/// The last `n` hexadecimal digits of `x`.
pub open spec fn hex(x: int, n: nat) -> Seq<char>
    decreases n,
{
    if n == 0 {
        Seq::empty()
    } else {
        hex(x / 16, (n - 1) as nat).push(digit(x % 16))
    }
}

/// The decimal digits of `x`.
pub open spec fn decimal(x: int) -> Seq<char>
    decreases x,
{
    if x < 10 {
        seq![digit(x)]
    } else {
        decimal(x / 10).push(digit(x % 10))
    }
}

/// The number that a digit stands for.
pub open spec fn digit_value(c: char) -> int {
    if '0' <= c <= '9' {
        c as int - '0' as int
    } else {
        10 + c as int - 'A' as int
    }
}

/// The number that digits stand for, the most significant one first.
pub open spec fn number(s: Seq<char>, base: int) -> int
    decreases s.len(),
{
    if s.len() == 0 {
        0
    } else {
        base * number(s.drop_last(), base) + digit_value(s.last())
    }
}

/// Whether a character is a decimal digit, or a hexadecimal one.
pub open spec fn is_digit(c: char, base: int) -> bool {
    '0' <= c <= '9' || (base == 16 && 'A' <= c <= 'F')
}

/// The decimal digits of a number stand for it, and the first is no zero unless it is the only
/// one.
pub proof fn decimal_digits_stand_for_the_number(x: int)
    requires
        0 <= x,
    ensures
        number(decimal(x), 10) == x,
        decimal(x).len() > 0,
        forall|i: int| 0 <= i < decimal(x).len() ==> is_digit(#[trigger] decimal(x)[i], 10),
        decimal(x)[0] == '0' ==> x == 0,
        x == 0 ==> decimal(x).len() == 1,
    decreases x,
{
    if x < 10 {
        assert(decimal(x).drop_last() =~= Seq::<char>::empty());
        assert(decimal(x).last() == digit(x));
        reveal_with_fuel(number, 2);
    } else {
        decimal_digits_stand_for_the_number(x / 10);
        let head = decimal(x / 10);
        assert(decimal(x).drop_last() =~= head);
        assert(decimal(x).last() == digit(x % 10));
        assert forall|i: int| 0 <= i < decimal(x).len() implies is_digit(
            #[trigger] decimal(x)[i],
            10,
        ) by {
            if i < head.len() {
                assert(is_digit(head[i], 10));
                assert(decimal(x)[i] == head[i]);
            }
        }
        assert(decimal(x)[0] == head[0]);
    }
}

/// 16 to the power of `n`.
pub open spec fn power_of_16(n: nat) -> int
    decreases n,
{
    if n == 0 {
        1
    } else {
        16 * power_of_16((n - 1) as nat)
    }
}

/// `n` hexadecimal digits stand for a number below the `n`th power of 16 exactly.
pub proof fn hex_digits_stand_for_the_number(x: int, n: nat)
    requires
        0 <= x < power_of_16(n),
    ensures
        hex(x, n).len() == n,
        number(hex(x, n), 16) == x,
        forall|i: int| 0 <= i < n ==> is_digit(#[trigger] hex(x, n)[i], 16),
    decreases n,
{
    if n > 0 {
        let m = (n - 1) as nat;
        hex_digits_stand_for_the_number(x / 16, m);
        let head = hex(x / 16, m);
        assert(hex(x, n).drop_last() =~= head);
        assert(hex(x, n).last() == digit(x % 16));
        assert forall|i: int| 0 <= i < n implies is_digit(#[trigger] hex(x, n)[i], 16) by {
            if i < m {
                assert(is_digit(head[i], 16));
                assert(hex(x, n)[i] == head[i]);
            }
        }
    }
}

fn push_digit(out: &mut String, d: u32)
    requires
        d < 16,
    ensures
        final(out)@ == old(out)@.push(digit(d as int)),
{
    let digits: &str = "0123456789ABCDEF";
    proof {
        reveal_strlit("0123456789ABCDEF");
    }
    let one: &str = digits.substring_char(d as usize, d as usize + 1);
    assert(one@ =~= seq![digits@[d as int]]);
    assert(digits@[d as int] == digit(d as int));
    out.append(one);
    assert(out@ =~= old(out)@.push(digit(d as int)));
}

/// Append the last `n` hexadecimal digits of `x`.
pub fn push_hex(out: &mut String, x: u32, n: usize)
    ensures
        final(out)@ == old(out)@ + hex(x as int, n as nat),
    decreases n,
{
    if n > 0 {
        push_hex(out, x / 16, n - 1);
        push_digit(out, x % 16);
    }
    assert(out@ =~= old(out)@ + hex(x as int, n as nat));
}

/// Append the decimal digits of `x`.
pub fn push_decimal(out: &mut String, x: u32)
    ensures
        final(out)@ == old(out)@ + decimal(x as int),
    decreases x,
{
    if x < 10 {
        push_digit(out, x);
    } else {
        push_decimal(out, x / 10);
        push_digit(out, x % 10);
    }
    assert(out@ =~= old(out)@ + decimal(x as int));
}

/// Maximum number of characters of a database name used in file names.
pub const DB_NAME_MAX: usize = 8;

/// The name of the file of the sector with the number `index` of the database called `name`:
/// its first characters, and the number.
pub open spec fn sector_file(name: Seq<char>, index: int) -> Seq<char> {
    let short = if name.len() <= DB_NAME_MAX {
        name
    } else {
        name.take(DB_NAME_MAX as int)
    };
    short + ".fdb."@ + decimal(index)
}

/// The name of the file of a sector: at most 8 characters of the database's name, `.fdb.`, and
/// the decimal digits of the sector's number. Two sectors of a database have two files.
pub proof fn a_sector_file(name: Seq<char>, index: int, other: int)
    requires
        0 <= index,
        0 <= other,
    ensures
        ({
            let f = sector_file(name, index);
            let n = if name.len() < 8 {
                name.len() as int
            } else {
                8
            };
            &&& f.len() > n + 5
            &&& f.take(n) == name.take(n)
            &&& f.subrange(n, n + 5) == seq!['.', 'f', 'd', 'b', '.']
            &&& number(f.skip(n + 5), 10) == index
            &&& forall|i: int| n + 5 <= i < f.len() ==> is_digit(#[trigger] f[i], 10)
            &&& f == sector_file(name, other) ==> index == other
        }),
{
    reveal_strlit(".fdb.");
    decimal_digits_stand_for_the_number(index);
    decimal_digits_stand_for_the_number(other);
    let f = sector_file(name, index);
    let g = sector_file(name, other);
    let n = if name.len() < 8 {
        name.len() as int
    } else {
        8
    };
    assert(f.take(n) =~= name.take(n));
    assert(f.subrange(n, n + 5) =~= seq!['.', 'f', 'd', 'b', '.']);
    assert(f.skip(n + 5) =~= decimal(index));
    assert(g.skip(n + 5) =~= decimal(other));
    assert forall|i: int| n + 5 <= i < f.len() implies is_digit(#[trigger] f[i], 10) by {
        assert(f[i] == decimal(index)[i - n - 5]);
    }
}

/// The name of the file that holds a sector, `<name>.fdb.<index>`.
pub fn file_name(name: &str, index: u32) -> (r: String)
    ensures
        r@ == sector_file(name@, index as int),
{
    let len: usize = name.unicode_len();
    let n: usize = if len <= DB_NAME_MAX {
        len
    } else {
        DB_NAME_MAX
    };
    let mut out: String = String::new();
    out.append(name.substring_char(0, n));
    out.append(".fdb.");
    push_decimal(&mut out, index);
    assert(out@ =~= sector_file(name@, index as int));
    out
}

/// How a value is rendered: as text if it is printable, else by its address and length.
pub open spec fn rendered_value(value: Seq<u8>, at: int) -> Seq<char> {
    if all_printable(value) {
        ascii_text(value)
    } else {
        "blob @0x"@ + hex(at, 8) + " "@ + decimal(value.len() as int) + " bytes"@
    }
}

/// How a name is rendered: as the text that it encodes where it is UTF-8.
pub open spec fn name_text(name: Seq<u8>) -> Seq<char> {
    if utf8::valid_utf8(name) {
        utf8::decode_utf8(name)
    } else {
        lossy_text(name)
    }
}

/// How a node is rendered: a line of its name and its value.
pub open spec fn rendered(name: Seq<u8>, value: Seq<u8>, at: int) -> Seq<char> {
    name_text(name) + "="@ + rendered_value(value, at) + "\n"@
}

/// A line of a printable name and a printable value: the characters of the name, an equals
/// sign, the characters of the value, and a line feed.
pub proof fn a_line_of_text(name: Seq<u8>, value: Seq<u8>, at: int)
    requires
        forall|i: int| 0 <= i < name.len() ==> 0x20 <= #[trigger] name[i] <= 0x7E,
        forall|i: int| 0 <= i < value.len() ==> 0x20 <= #[trigger] value[i] <= 0x7E,
    ensures
        ({
            let line = rendered(name, value, at);
            let n = name.len() as int;
            &&& line.len() == n + 1 + value.len() + 1
            &&& forall|i: int| 0 <= i < n ==> #[trigger] line[i] as int == name[i] as int
            &&& line[n] == '='
            &&& forall|i: int|
                0 <= i < value.len() ==> #[trigger] line[n + 1 + i] as int == value[i] as int
            &&& line.last() == '\n'
        }),
{
    printable_by_number(name);
    printable_by_number(value);
    printable_is_utf8(name);
    reveal_strlit("=");
    reveal_strlit("\n");
    let line = rendered(name, value, at);
    let n = name.len() as int;
    let t = ascii_text(name);
    let v = ascii_text(value);
    assert(line =~= t + seq!['='] + v + seq!['\n']);
    assert forall|i: int| 0 <= i < n implies #[trigger] line[i] as int == name[i] as int by {
        assert(line[i] == t[i]);
    }
    assert forall|i: int| 0 <= i < value.len() implies #[trigger] line[n + 1 + i] as int
        == value[i] as int by {
        assert(line[n + 1 + i] == v[i]);
    }
}

/// A line of a value that is not printable ends with where the value is, in hexadecimal digits,
/// and how long it is, in decimal ones.
pub proof fn a_line_of_a_blob(name: Seq<u8>, value: Seq<u8>, at: int, k: int)
    requires
        0 <= k < value.len(),
        value[k] < 0x20 || value[k] > 0x7E,
        0 <= at <= 0xFFFF_FFFF,
    ensures
        ({
            let line = rendered(name, value, at);
            let n = name_text(name).len() as int;
            let rest = line.skip(n);
            let digits = rest.subrange(18, rest.len() - 7);
            &&& line.take(n) == name_text(name)
            &&& rest.take(9) == seq!['=', 'b', 'l', 'o', 'b', ' ', '@', '0', 'x']
            &&& number(rest.subrange(9, 17), 16) == at
            &&& rest[17] == ' '
            &&& digits.len() > 0 && number(digits, 10) == value.len()
            &&& rest.skip(rest.len() - 7) == seq![' ', 'b', 'y', 't', 'e', 's', '\n']
        }),
{
    printable_by_number(value);
    assert(!all_printable(value));
    reveal_strlit("=");
    reveal_strlit("blob @0x");
    reveal_strlit(" ");
    reveal_strlit(" bytes");
    reveal_strlit("\n");
    reveal_with_fuel(power_of_16, 9);
    hex_digits_stand_for_the_number(at, 8);
    let len = value.len() as int;
    decimal_digits_stand_for_the_number(len);
    let line = rendered(name, value, at);
    let t = name_text(name);
    let h = hex(at, 8);
    let dd = decimal(len);
    let rest = line.skip(t.len() as int);
    assert(line =~= t + "="@ + ("blob @0x"@ + h + " "@ + dd + " bytes"@) + "\n"@);
    assert(rest =~= "="@ + "blob @0x"@ + h + " "@ + dd + " bytes"@ + "\n"@);
    assert(line.take(t.len() as int) =~= t);
    assert(rest.subrange(9, 17) =~= h);
    assert(rest.subrange(18, rest.len() - 7) =~= dd);
    assert(rest.take(9) =~= seq!['=', 'b', 'l', 'o', 'b', ' ', '@', '0', 'x']);
    assert(rest.skip(rest.len() - 7) =~= seq![' ', 'b', 'y', 't', 'e', 's', '\n']);
}

/// Append a line of a name and a value; `at` is the value's address.
pub fn push_line(out: &mut String, name: &[u8], value: &[u8], at: u32)
    requires
        value@.len() <= u32::MAX,
    ensures
        final(out)@ == old(out)@ + rendered(name@, value@, at as int),
{
    let name_text: String = text_of(name);
    out.append(name_text.as_str());
    out.append("=");
    let ghost before = out@;
    if is_str(value) {
        proof {
            printable_is_utf8(value@);
        }
        let value_text: String = text_of(value);
        out.append(value_text.as_str());
    } else {
        out.append("blob @0x");
        push_hex(out, at, 8);
        out.append(" ");
        push_decimal(out, value.len() as u32);
        out.append(" bytes");
    }
    assert(out@ =~= before + rendered_value(value@, at as int));
    out.append("\n");
    assert(out@ =~= old(out)@ + rendered(name@, value@, at as int));
}

} // verus!
