//! What a described signature comes to.

use crate::custom::{
    ext_fault, hex_in, length_in, lends, spec_in, LengthRule, SpecRule,
};
use crate::json::{member, member_from, Json};
use crate::signatures::Signature;
use vstd::prelude::*;

verus! {

/// The first of the members of an object that has the key has the value.
pub open spec fn says(j: Json, key: Seq<char>, v: Json) -> bool {
    j matches Json::Object(m) && exists|i: int|
        0 <= i < m@.len() && (#[trigger] m@[i]).0@ == key && m@[i].1 == v && is_first(m@, key, i)
}

/// None of the members before the `i`-th has the key.
pub open spec fn is_first(m: Seq<(String, Json)>, key: Seq<char>, i: int) -> bool {
    forall|k: int| 0 <= k < i ==> (#[trigger] m[k]).0@ != key
}

/// No member of an object has the key.
pub open spec fn lacks(j: Json, key: Seq<char>) -> bool {
    j matches Json::Object(m) ==> is_first(m@, key, m@.len() as int)
}

proof fn lemma_member(m: Seq<(String, Json)>, key: Seq<char>, i: int, k: int)
    requires
        0 <= k <= i <= m.len(),
        is_first(m, key, i),
        i < m.len() ==> m[i].0@ == key,
    ensures
        member_from(m, key, k) == if i < m.len() {
            Some(m[i].1)
        } else {
            None
        },
    decreases i - k,
{
    if k < i {
        assert(m[k].0@ != key);
        lemma_member(m, key, i, k + 1);
    }
}

/// The value of a key is that of the first member that has it.
pub proof fn law_member(j: Json, key: Seq<char>, v: Json)
    ensures
        says(j, key, v) ==> member(j, key) == Some(v),
        lacks(j, key) ==> member(j, key) is None,
{
    if let Json::Object(m) = j {
        if says(j, key, v) {
            let i = choose|i: int|
                0 <= i < m@.len() && (#[trigger] m@[i]).0@ == key && m@[i].1 == v && is_first(m@, key, i);
            lemma_member(m@, key, i, 0);
        }
        if lacks(j, key) {
            lemma_member(m@, key, m@.len() as int, 0);
        }
    }
}

/// A rule with the strategy "fixed" is its size.
pub proof fn law_fixed(l: Json, t: String, size: u64)
    requires
        says(l, "strategy"@, Json::Text(t)),
        t@ == "fixed"@,
        says(l, "size"@, Json::Unsigned(size)),
        size > 0,
    ensures
        length_in(l) == Ok::<LengthRule, Seq<char>>(LengthRule::Fixed(size)),
{
    law_member(l, "strategy"@, Json::Text(t));
    law_member(l, "size"@, Json::Unsigned(size));
}

/// A rule with the strategy "size_field" has an offset and a width, and may have a byte order, a factor and a number to be
/// added; otherwise the least significant byte is the first, the factor one, and nothing is added.
pub proof fn law_size_field(l: Json, t: String, offset: u64, width: u64, order: String, mul: u64, add: u64)
    requires
        says(l, "strategy"@, Json::Text(t)),
        t@ == "size_field"@,
        says(l, "offset"@, Json::Unsigned(offset)),
        says(l, "width"@, Json::Unsigned(width)),
        width == 8 || width == 16 || width == 32 || width == 64,
        lacks(l, "endian"@) && order@ == "le"@ || says(l, "endian"@, Json::Text(order)),
        order@ == "le"@ || order@ == "little"@ || order@ == "be"@ || order@ == "big"@,
        lacks(l, "mul"@) && mul == 1 || says(l, "mul"@, Json::Unsigned(mul)),
        mul > 0,
        lacks(l, "add"@) && add == 0 || says(l, "add"@, Json::Unsigned(add)),
    ensures
        length_in(l) == Ok::<LengthRule, Seq<char>>(
            LengthRule::SizeField {
                offset: offset as usize,
                width: width as u8,
                big_endian: order@ == "be"@ || order@ == "big"@,
                mul,
                add,
            },
        ),
{
    reveal_strlit("fixed");
    reveal_strlit("size_field");
    reveal_strlit("le");
    reveal_strlit("be");
    reveal_strlit("little");
    reveal_strlit("big");
    assert("fixed"@.len() == 5 && "size_field"@.len() == 10);
    assert("le"@[0] != "be"@[0]);
    assert("le"@.len() == 2 && "be"@.len() == 2 && "little"@.len() == 6 && "big"@.len() == 3);
    law_member(l, "strategy"@, Json::Text(t));
    law_member(l, "offset"@, Json::Unsigned(offset));
    law_member(l, "width"@, Json::Unsigned(width));
    law_member(l, "endian"@, Json::Text(order));
    law_member(l, "mul"@, Json::Unsigned(mul));
    law_member(l, "add"@, Json::Unsigned(add));
}

/// A rule with the strategy "footer" has a marker in hexadecimal, and may have a number of bytes that may follow it; otherwise
/// none does.
pub proof fn law_footer(l: Json, t: String, marker: String, bytes: Seq<u8>, trailing: u64)
    requires
        says(l, "strategy"@, Json::Text(t)),
        t@ == "footer"@,
        says(l, "marker"@, Json::Text(marker)),
        hex_in(marker@) == Ok::<Seq<u8>, Seq<char>>(bytes),
        bytes.len() > 0,
        lacks(l, "trailing"@) && trailing == 0 || says(l, "trailing"@, Json::Unsigned(trailing)),
    ensures
        length_in(l) == Ok::<LengthRule, Seq<char>>(LengthRule::Footer { marker: bytes, trailing }),
{
    reveal_strlit("fixed");
    reveal_strlit("size_field");
    reveal_strlit("footer");
    assert("fixed"@.len() == 5 && "size_field"@.len() == 10 && "footer"@.len() == 6);
    law_member(l, "strategy"@, Json::Text(t));
    law_member(l, "marker"@, Json::Text(marker));
    law_member(l, "trailing"@, Json::Unsigned(trailing));
}

/// A signature that is fully described is accepted as it is described: its name, its extension, its bytes and where they are,
/// at the beginning if nothing else is said, how long a file may be, and how its length is found.
pub proof fn law_described(
    item: Json,
    name: String,
    ext: String,
    magic: String,
    bytes: Seq<u8>,
    at: u64,
    max: u64,
    l: Json,
    rule: LengthRule,
)
    requires
        says(item, "name"@, Json::Text(name)),
        says(item, "ext"@, Json::Text(ext)),
        ext_fault(ext@) is None,
        says(item, "magic"@, Json::Text(magic)),
        hex_in(magic@) == Ok::<Seq<u8>, Seq<char>>(bytes),
        bytes.len() > 0,
        lacks(item, "magic_offset"@) && at == 0 || says(item, "magic_offset"@, Json::Unsigned(at)),
        lacks(item, "secondary"@),
        says(item, "max_size"@, Json::Unsigned(max)),
        0 < max <= crate::custom::MAX_SIZE_CAP,
        says(item, "length"@, l),
        length_in(l) == Ok::<LengthRule, Seq<char>>(rule),
    ensures
        spec_in(item) == Ok::<SpecRule, Seq<char>>(
            SpecRule {
                name: name@,
                ext: ext@,
                magic: bytes,
                magic_offset: at,
                secondary: None,
                max_size: max,
                length: rule,
            },
        ),
{
    law_member(item, "name"@, Json::Text(name));
    law_member(item, "ext"@, Json::Text(ext));
    law_member(item, "magic"@, Json::Text(magic));
    law_member(item, "magic_offset"@, Json::Unsigned(at));
    law_member(item, "secondary"@, Json::Unsigned(0));
    law_member(item, "max_size"@, Json::Unsigned(max));
    law_member(item, "length"@, l);
}

/// A signature with second bytes has them where they are described, as far behind the first as the offset says.
pub proof fn law_second_bytes(item: Json, sec: Json, offset: u64, text: String, bytes: Seq<u8>, s: SpecRule)
    requires
        says(item, "secondary"@, sec),
        says(sec, "offset"@, Json::Unsigned(offset)),
        says(sec, "bytes"@, Json::Text(text)),
        hex_in(text@) == Ok::<Seq<u8>, Seq<char>>(bytes),
        bytes.len() > 0,
        spec_in(item) == Ok::<SpecRule, Seq<char>>(s),
    ensures
        s.secondary == Some((offset as usize, bytes)),
{
    law_member(item, "secondary"@, sec);
    law_member(sec, "offset"@, Json::Unsigned(offset));
    law_member(sec, "bytes"@, Json::Text(text));
}

/// A signature that is made of a description looks for the bytes that it describes, at the place that it describes, and is no
/// volume.
pub proof fn law_lent(sig: Signature, s: SpecRule)
    requires
        lends(sig, s),
    ensures
        sig.magic@ == s.magic,
        sig.magic_offset == s.magic_offset,
        sig.ext@ == s.ext,
        sig.max_size == s.max_size,
        !sig.volume,
        s.secondary is None <==> sig.secondary is None,
        sig.secondary matches Some(x) ==> s.secondary == Some((x.0, x.1@)),
{
}

} // verus!
