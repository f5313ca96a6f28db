//! One line of JSON per segmented input: `{"id":N,"input":"...","segments":[...]}`.
use vstd::prelude::*;
use crate::codepoints::{chars_of, push_char};
use crate::dictionary::strings_view;

verus! {

/// The lower-case hexadecimal digit of value `d`.
pub open spec fn hex_digit(d: int) -> char {
    seq!['0', '1', '2', '3', '4', '5', '6', '7', '8', '9', 'a', 'b', 'c', 'd', 'e', 'f'][d]
}

/// The decimal digit of value `d`.
pub open spec fn decimal_digit(d: int) -> char {
    seq!['0', '1', '2', '3', '4', '5', '6', '7', '8', '9'][d]
}

/// The decimal numeral of `v`, without leading zeros.
pub open spec fn decimal(v: nat) -> Seq<char>
    decreases v,
{
    if v < 10 {
        seq![decimal_digit(v as int)]
    } else {
        decimal(v / 10).push(decimal_digit((v % 10) as int))
    }
}

/// How `c` is written inside a JSON string.
pub open spec fn escape_char(c: char) -> Seq<char> {
    if c == '"' {
        seq!['\\', '"']
    } else if c == '\\' {
        seq!['\\', '\\']
    } else if c == '\n' {
        seq!['\\', 'n']
    } else if c == '\r' {
        seq!['\\', 'r']
    } else if c == '\t' {
        seq!['\\', 't']
    } else if (c as u32) < 0x20 {
        seq!['\\', 'u', '0', '0', hex_digit((c as u32) as int / 16), hex_digit((c as u32) as int % 16)]
    } else {
        seq![c]
    }
}

/// `s` written inside a JSON string.
pub open spec fn escaped(s: Seq<char>) -> Seq<char>
    decreases s.len(),
{
    if s.len() == 0 {
        Seq::empty()
    } else {
        escaped(s.drop_last()) + escape_char(s.last())
    }
}

/// The first `k` segments as the items of a JSON array of strings.
pub open spec fn segments_json(segs: Seq<Seq<char>>, k: int) -> Seq<char>
    decreases k,
{
    if k <= 0 {
        Seq::empty()
    } else {
        let sep = if k > 1 {
            seq![',']
        } else {
            Seq::empty()
        };
        segments_json(segs, k - 1) + sep + seq!['"'] + escaped(segs[k - 1]) + seq!['"']
    }
}

/// The JSON record of one segmented input.
pub open spec fn json_record(id: nat, input: Seq<char>, segs: Seq<Seq<char>>) -> Seq<char> {
    "{\"id\":"@ + decimal(id) + ",\"input\":\""@ + escaped(input) + "\",\"segments\":["@
        + segments_json(segs, segs.len() as int) + "]}"@
}

fn hex_char(d: u32) -> (r: char)
    requires
        d < 16,
    ensures
        r == hex_digit(d as int),
{
    let digits = ['0', '1', '2', '3', '4', '5', '6', '7', '8', '9', 'a', 'b', 'c', 'd', 'e', 'f'];
    let r = digits[d as usize];
    assert(digits@ =~= seq!['0', '1', '2', '3', '4', '5', '6', '7', '8', '9', 'a', 'b', 'c', 'd', 'e', 'f']);
    r
}

fn digit_char(d: usize) -> (r: char)
    requires
        d < 10,
    ensures
        r == decimal_digit(d as int),
{
    let digits = ['0', '1', '2', '3', '4', '5', '6', '7', '8', '9'];
    let r = digits[d];
    assert(digits@ =~= seq!['0', '1', '2', '3', '4', '5', '6', '7', '8', '9']);
    r
}

/// Appends `s`, escaped for a JSON string, to `out`.
pub fn escape_json_to(out: &mut String, s: &str)
    ensures
        final(out)@ == old(out)@ + escaped(s@),
{
    let cps = chars_of(s);
    let mut i: usize = 0;
    while i < cps.len()
        invariant
            cps@ == s@,
            i <= cps@.len(),
            out@ == old(out)@ + escaped(cps@.subrange(0, i as int)),
        decreases cps@.len() - i,
    {
        let c = cps[i];
        let ghost before = out@;
        if c == '"' || c == '\\' {
            push_char(out, '\\');
            push_char(out, c);
        } else if c == '\n' {
            push_char(out, '\\');
            push_char(out, 'n');
        } else if c == '\r' {
            push_char(out, '\\');
            push_char(out, 'r');
        } else if c == '\t' {
            push_char(out, '\\');
            push_char(out, 't');
        } else if (c as u32) < 0x20 {
            let code = c as u32;
            push_char(out, '\\');
            push_char(out, 'u');
            push_char(out, '0');
            push_char(out, '0');
            push_char(out, hex_char(code / 16));
            push_char(out, hex_char(code % 16));
        } else {
            push_char(out, c);
        }
        assert(out@ =~= before + escape_char(c));
        assert(cps@.subrange(0, i + 1).drop_last() =~= cps@.subrange(0, i as int));
        i = i + 1;
    }
    assert(cps@.subrange(0, i as int) =~= cps@);
}

/// Appends the decimal numeral of `val` to `out`.
pub fn append_int(out: &mut String, val: usize)
    ensures
        final(out)@ == old(out)@ + decimal(val as nat),
{
    let mut digits: Vec<char> = Vec::new();
    let mut v: usize = val;
    while v >= 10
        invariant
            decimal(val as nat) == decimal(v as nat) + digits@.reverse(),
        decreases v,
    {
        let d = digit_char(v % 10);
        proof {
            assert(digits@.push(d).reverse() =~= seq![d] + digits@.reverse());
            assert(decimal(v as nat) == decimal((v / 10) as nat).push(d));
            assert(decimal(v as nat) + digits@.reverse() =~= decimal((v / 10) as nat) + digits@.push(d).reverse());
        }
        digits.push(d);
        v = v / 10;
    }
    let ghost start = out@;
    push_char(out, digit_char(v));
    let mut k: usize = digits.len();
    while k > 0
        invariant
            k <= digits@.len(),
            out@ == start + seq![decimal_digit(v as int)] + digits@.reverse().subrange(
                0,
                digits@.len() - k,
            ),
        decreases k,
    {
        k = k - 1;
        push_char(out, digits[k]);
        assert(digits@.reverse().subrange(0, digits@.len() - k) =~= digits@.reverse().subrange(
            0,
            digits@.len() - k - 1,
        ).push(digits@[k as int]));
    }
    assert(digits@.reverse().subrange(0, digits@.len() as int) =~= digits@.reverse());
    assert(out@ =~= start + decimal(val as nat));
}

/// The JSON record of input `input`, numbered `id`, and its segments.
pub fn build_json_record(id: usize, input: &str, segments: &[String]) -> (r: String)
    ensures
        r@ == json_record(id as nat, input@, strings_view(segments@)),
{
    let ghost segs = strings_view(segments@);
    let mut buffer = String::new();
    buffer.append("{\"id\":");
    append_int(&mut buffer, id);
    buffer.append(",\"input\":\"");
    escape_json_to(&mut buffer, input);
    buffer.append("\",\"segments\":[");
    let ghost head = buffer@;
    let mut i: usize = 0;
    while i < segments.len()
        invariant
            segs == strings_view(segments@),
            i <= segments@.len(),
            buffer@ == head + segments_json(segs, i as int),
        decreases segments@.len() - i,
    {
        let ghost before = buffer@;
        if i > 0 {
            push_char(&mut buffer, ',');
        }
        push_char(&mut buffer, '"');
        escape_json_to(&mut buffer, segments[i].as_str());
        push_char(&mut buffer, '"');
        assert(segs[i as int] == segments@[i as int]@);
        assert(buffer@ =~= head + segments_json(segs, i + 1));
        i = i + 1;
    }
    buffer.append("]}");
    assert(buffer@ =~= json_record(id as nat, input@, segs));
    buffer
}

} // verus!
