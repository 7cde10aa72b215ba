//! Numbers, block names and paths as text.
use vstd::prelude::*;
use vstd::string::*;
use vstd::utf8::*;

verus! {

/// The reason why bytes are no UTF-8 text.
#[verifier::external_type_specification]
#[verifier::external_body]
pub struct ExUtf8Error(std::str::Utf8Error);

/// `std::str::from_utf8`: bytes that are UTF-8 text are seen as that text, other bytes are
/// refused.
pub assume_specification[ std::str::from_utf8 ](v: &[u8]) -> (r: Result<&str, std::str::Utf8Error>)
    ensures
        r is Ok <==> valid_utf8(v@),
        r matches Ok(s) ==> s.spec_bytes() == v@,
;

/// `String::push`: the character is appended.
pub assume_specification[ String::push ](s: &mut String, c: char)
    ensures
        final(s)@ == old(s)@.push(c),
;

/// The decimal digit of `d`.
pub open spec fn digit(d: int) -> char {
    (0x30 + d) as char
}

/// `n` in decimal, without leading zeros.
pub open spec fn digits(n: nat) -> Seq<char>
    decreases n,
{
    if n < 10 {
        seq![digit(n as int)]
    } else {
        digits(n / 10).push(digit((n % 10) as int))
    }
}

/// `count` zeros; none if `count` is negative.
pub open spec fn zeros(count: int) -> Seq<char> {
    Seq::new((if count < 0 { 0 } else { count }) as nat, |i: int| '0')
}

/// `n` in decimal, filled up to `width` characters with zeros between the sign and the digits.
pub open spec fn decimal(n: int, width: int) -> Seq<char> {
    if n < 0 {
        let body = digits((-n) as nat);
        seq!['-'] + zeros(width - 1 - body.len()) + body
    } else {
        let body = digits(n as nat);
        zeros(width - body.len()) + body
    }
}

/// Appends `n` in decimal.
pub fn push_digits(s: &mut String, n: u64)
    ensures
        final(s)@ == old(s)@ + digits(n as nat),
    decreases n,
{
    if n >= 10 {
        push_digits(s, n / 10);
    }
    let d: u8 = 0x30 + (n % 10) as u8;
    s.push(d as char);
    assert(s@ =~= old(s)@ + digits(n as nat));
}

/// How many digits `n` has.
fn digit_count(n: u64) -> (r: u64)
    ensures
        r == digits(n as nat).len(),
        r <= n + 1,
    decreases n,
{
    if n < 10 {
        1
    } else {
        let rest: u64 = digit_count(n / 10);
        rest + 1
    }
}

/// Appends `n` in decimal, filled up to `width` characters.
pub fn push_decimal(s: &mut String, n: i32, width: u64)
    ensures
        final(s)@ == old(s)@ + decimal(n as int, width as int),
{
    let ghost start = s@;
    let mut used: u64 = 0;
    let size: u64 = if n < 0 {
        s.push('-');
        used = 1;
        (-(n as i64)) as u64
    } else {
        n as u64
    };
    let ghost signed = s@;
    used = used + digit_count(size);
    let ghost fill = width - used;
    assert(s@ =~= signed + zeros(0));
    while used < width
        invariant
            fill == width - used + (s@.len() - signed.len()),
            s@ == signed + zeros(s@.len() - signed.len()),
            s@.len() >= signed.len(),
            used <= width || s@.len() == signed.len(),
        decreases width - used,
    {
        s.push('0');
        used = used + 1;
        assert(s@ =~= signed + zeros(s@.len() - signed.len()));
    }
    assert(s@ =~= signed + zeros(fill));
    push_digits(s, size);
    assert(s@ =~= start + decimal(n as int, width as int));
}

/// The text that the four bytes of a block name spell.
pub open spec fn id_text(id: Seq<u8>) -> Seq<char> {
    decode_utf8(id)
}

/// The name under which block `number` of kind `id` is filed.
pub open spec fn id_num(id: Seq<u8>, number: int) -> Seq<char> {
    id_text(id) + "_"@ + decimal(number, 2)
}

/// Spells the name under which block `number` of kind `id` is filed; there is none if the kind is
/// no text.
pub fn format_id_num(id: &[u8], number: i32) -> (r: Option<String>)
    ensures
        r is Some <==> valid_utf8(id@),
        r matches Some(s) ==> s@ == id_num(id@, number as int),
{
    match std::str::from_utf8(id) {
        Ok(text) => {
            proof {
                encode_utf8_decode_utf8(text@);
            }
            let mut s: String = text.to_owned();
            s.append("_");
            push_decimal(&mut s, number, 2);
            Some(s)
        },
        Err(_) => None,
    }
}

/// The place of the last slash in `path`, or -1.
pub open spec fn last_slash(path: Seq<char>) -> int
    decreases path.len(),
{
    if path.len() == 0 {
        -1
    } else if path.last() == '/' {
        path.len() - 1
    } else {
        last_slash(path.drop_last())
    }
}

/// `path` up to its last slash.
pub open spec fn parent(path: Seq<char>) -> Seq<char> {
    path.take(last_slash(path))
}

/// The last slash is a slash, and none stands behind it.
pub proof fn lemma_last_slash(path: Seq<char>)
    ensures
        -1 <= last_slash(path) < path.len(),
        last_slash(path) >= 0 ==> path[last_slash(path)] == '/',
        forall|i: int| last_slash(path) < i < path.len() ==> path[i] != '/',
    decreases path.len(),
{
    if path.len() > 0 && path.last() != '/' {
        lemma_last_slash(path.drop_last());
        assert forall|i: int| last_slash(path) < i < path.len() implies path[i] != '/' by {
            if i < path.len() - 1 {
                assert(path.drop_last()[i] == path[i]);
            }
        }
    }
}

/// A component without a slash is what the parent leaves out.
pub proof fn lemma_parent_of_child(path: Seq<char>, name: Seq<char>)
    requires
        !name.contains('/'),
    ensures
        parent(path + "/"@ + name) == path,
{
    reveal_strlit("/");
    let full = path + "/"@ + name;
    lemma_last_slash(full);
    assert(full[path.len() as int] == '/');
    if last_slash(full) > path.len() {
        assert(full[last_slash(full)] == name[last_slash(full) - path.len() - 1]);
    }
    assert(parent(full) =~= path);
}

/// Cuts `path` off at its last slash.
pub fn parent_path(path: &str) -> (r: String)
    requires
        path@.contains('/'),
    ensures
        r@ == parent(path@),
{
    proof {
        lemma_last_slash(path@);
        let i = choose|i: int| 0 <= i < path@.len() && path@[i] == '/';
        assert(last_slash(path@) >= i);
    }
    let mut i: usize = path.unicode_len();
    assert(path@.take(path@.len() as int) =~= path@);
    loop
        invariant
            i <= path@.len(),
            last_slash(path@.take(i as int)) == last_slash(path@),
            last_slash(path@) >= 0,
        decreases i,
    {
        proof {
            lemma_last_slash(path@.take(i as int));
            assert(path@.take(i as int).drop_last() =~= path@.take(i - 1));
        }
        i = i - 1;
        if path.get_char(i) == '/' {
            return path.substring_char(0, i).to_owned();
        }
    }
}

/// The number that decimal digits spell.
pub open spec fn spelled(s: Seq<char>) -> int
    decreases s.len(),
{
    if s.len() == 0 {
        0
    } else {
        10 * spelled(s.drop_last()) + (s.last() as int - 0x30)
    }
}

/// Digits are digits, and spell the number they are of.
pub proof fn lemma_digits(n: nat)
    ensures
        digits(n).len() > 0,
        forall|i: int| 0 <= i < digits(n).len() ==> 0x30 <= #[trigger] digits(n)[i] as int <= 0x39,
        spelled(digits(n)) == n,
    decreases n,
{
    if n < 10 {
        assert(digits(n).drop_last() =~= Seq::<char>::empty());
        assert(spelled(digits(n).drop_last()) == 0);
    } else {
        lemma_digits(n / 10);
        assert(digits(n).drop_last() =~= digits(n / 10));
    }
}

/// Zeros in front do not change what digits spell.
proof fn lemma_zeros_spell_nothing(count: int, s: Seq<char>)
    ensures
        spelled(zeros(count) + s) == spelled(s),
    decreases s.len(), if count < 0 { 0 } else { count },
{
    if s.len() > 0 {
        assert((zeros(count) + s).drop_last() =~= zeros(count) + s.drop_last());
        lemma_zeros_spell_nothing(count, s.drop_last());
    } else if count > 0 {
        assert((zeros(count) + s).drop_last() =~= zeros(count - 1) + s);
        lemma_zeros_spell_nothing(count - 1, s);
    } else {
        assert(zeros(count) + s =~= s);
    }
}

/// A number in decimal is made of digits, behind a sign if the number is negative.
pub proof fn lemma_decimal(n: int, width: int)
    ensures
        n >= 0 ==> spelled(decimal(n, width)) == n,
        n < 0 ==> decimal(n, width)[0] == '-' && spelled(decimal(n, width).skip(1)) == -n,
        n >= 0 ==> decimal(n, width).len() > 0 && decimal(n, width)[0] != '-',
        !decimal(n, width).contains('/'),
        !decimal(n, width).contains('\n'),
{
    let s = decimal(n, width);
    if n < 0 {
        let body = digits((-n) as nat);
        lemma_digits((-n) as nat);
        lemma_zeros_spell_nothing(width - 1 - body.len(), body);
        assert(s.skip(1) =~= zeros(width - 1 - body.len()) + body);
    } else {
        lemma_digits(n as nat);
        lemma_zeros_spell_nothing(width - digits(n as nat).len(), digits(n as nat));
    }
}

/// Numbers that look the same are the same.
pub proof fn law_decimals_differ(a: int, b: int, width: int)
    requires
        decimal(a, width) == decimal(b, width),
    ensures
        a == b,
{
    lemma_decimal(a, width);
    lemma_decimal(b, width);
}

/// The bytes of two texts, one behind the other, are the bytes of the first and then those of the
/// second.
pub proof fn lemma_encoded_add(a: Seq<char>, b: Seq<char>)
    ensures
        encode_utf8(a + b) == encode_utf8(a) + encode_utf8(b),
    decreases a.len(),
{
    if a.len() == 0 {
        assert(a + b =~= b);
        assert(encode_utf8(a) + encode_utf8(b) =~= encode_utf8(b));
    } else {
        lemma_encoded_add(a.drop_first(), b);
        assert((a + b).drop_first() =~= a.drop_first() + b);
        assert(encode_utf8(a + b) =~= encode_utf8(a) + encode_utf8(b));
    }
}

/// Blocks are filed under the same name only if they have the same kind and number.
pub proof fn law_names_differ(id1: Seq<u8>, n1: int, id2: Seq<u8>, n2: int)
    requires
        id1.len() == 4,
        id2.len() == 4,
        valid_utf8(id1),
        valid_utf8(id2),
        id_num(id1, n1) == id_num(id2, n2),
    ensures
        id1 == id2,
        n1 == n2,
{
    let (tail1, tail2) = ("_"@ + decimal(n1, 2), "_"@ + decimal(n2, 2));
    assert(id_num(id1, n1) =~= id_text(id1) + tail1);
    assert(id_num(id2, n2) =~= id_text(id2) + tail2);
    lemma_encoded_add(id_text(id1), tail1);
    lemma_encoded_add(id_text(id2), tail2);
    decode_utf8_encode_utf8(id1);
    decode_utf8_encode_utf8(id2);
    assert((id1 + encode_utf8(tail1)).take(4) =~= id1);
    assert((id2 + encode_utf8(tail2)).take(4) =~= id2);
    let k = (id_text(id1) + "_"@).len() as int;
    assert(id_num(id1, n1).skip(k) =~= decimal(n1, 2));
    assert(id_num(id2, n2).skip(k) =~= decimal(n2, 2));
    law_decimals_differ(n1, n2, 2);
}

/// The number that a text spells, behind a sign if it has one.
pub open spec fn number_in(s: Seq<char>) -> int {
    if s.len() > 0 && s[0] == '-' {
        -spelled(s.skip(1))
    } else {
        spelled(s)
    }
}

/// Digits have no zero in front, unless they are of zero itself.
proof fn lemma_no_zero_in_front(n: nat)
    ensures
        digits(n).len() > 0,
        digits(n).len() > 1 ==> digits(n)[0] != '0',
        n > 0 ==> digits(n)[0] != '0',
    decreases n,
{
    if n >= 10 {
        lemma_no_zero_in_front(n / 10);
        assert(digits(n)[0] == digits(n / 10)[0]);
    }
}

/// A number in decimal spells the number. It is made of digits, behind a sign if the number is
/// negative, fills the width, and has no more zeros in front than that takes.
pub proof fn law_decimal_spells_the_number(n: int, width: int)
    ensures
        ({
            let s = decimal(n, width);
            let sign: int = if n < 0 {
                1
            } else {
                0
            };
            &&& number_in(s) == n
            &&& s.len() > sign
            &&& s.len() >= width
            &&& n < 0 <==> s[0] == '-'
            &&& forall|i: int| sign <= i < s.len() ==> '0' <= #[trigger] s[i] <= '9'
            &&& s.len() > width && s.len() > sign + 1 ==> s[sign] != '0'
        }),
{
    let s = decimal(n, width);
    lemma_decimal(n, width);
    let m: nat = (if n < 0 {
        -n
    } else {
        n
    }) as nat;
    lemma_digits(m);
    lemma_no_zero_in_front(m);
    let body = digits(m);
    if n < 0 {
        let fill = zeros(width - 1 - body.len());
        assert forall|i: int| 1 <= i < s.len() implies '0' <= #[trigger] s[i] <= '9' by {
            if i > fill.len() {
                assert(s[i] == body[i - 1 - fill.len()]);
            }
        }
        if s.len() > width {
            assert(fill.len() == 0);
            assert(s[1] == body[0]);
        }
    } else {
        let fill = zeros(width - body.len());
        assert forall|i: int| 0 <= i < s.len() implies '0' <= #[trigger] s[i] <= '9' by {
            if i >= fill.len() {
                assert(s[i] == body[i - fill.len()]);
            }
        }
        if s.len() > width {
            assert(fill.len() == 0);
            assert(s[0] == body[0]);
        }
        assert(s[0] != '-');
    }
}

/// The name under which a block is filed is the text of its kind, an underscore, and its number with
/// at least two digits.
pub proof fn law_block_is_called(id: Seq<u8>, number: int)
    ensures
        id_num(id, number) == decode_utf8(id) + seq!['_'] + decimal(number, 2),
{
    reveal_strlit("_");
    assert("_"@ =~= seq!['_']);
}

/// A path with a slash is cut off just before one that has none behind it.
pub proof fn law_path_is_cut_at_its_last_slash(path: Seq<char>)
    requires
        path.contains('/'),
    ensures
        parent(path).len() < path.len(),
        parent(path) == path.take(parent(path).len() as int),
        path[parent(path).len() as int] == '/',
        forall|i: int| parent(path).len() < i < path.len() ==> path[i] != '/',
{
    lemma_last_slash(path);
    let i = choose|i: int| 0 <= i < path.len() && path[i] == '/';
    assert(last_slash(path) >= i);
}

} // verus!
