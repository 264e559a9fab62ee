use vstd::prelude::*;

verus! {

/// Whether `code` is the scalar value of some character: any code point up to
/// `0x10FFFF` that is not a surrogate.
pub open spec fn is_scalar_value(code: u32) -> bool {
    code <= 0xD7FF || 0xE000 <= code <= 0x10FFFF
}

/// What a character casts to is a scalar value.
pub proof fn lemma_char_is_scalar_value(c: char)
    ensures
        is_scalar_value(c as u32),
{
}

/// Two characters with the same scalar value are the same character.
pub proof fn lemma_scalar_value_injective(a: char, b: char)
    requires
        a as u32 == b as u32,
    ensures
        a == b,
{
}

/// Two non-empty words with the same first scalar value and the same rest are
/// the same word.
pub proof fn lemma_same_head_and_tail(a: Seq<char>, b: Seq<char>)
    requires
        a.len() > 0,
        b.len() > 0,
        a[0] as u32 == b[0] as u32,
        a.drop_first() == b.drop_first(),
    ensures
        a == b,
{
    lemma_scalar_value_injective(a[0], b[0]);
    assert(a.len() == b.len()) by {
        assert(a.drop_first().len() == a.len() - 1);
        assert(b.drop_first().len() == b.len() - 1);
    }
    assert forall|i: int| 0 <= i < a.len() implies a[i] == b[i] by {
        if i > 0 {
            assert(a[i] == a.drop_first()[i - 1]);
            assert(b[i] == b.drop_first()[i - 1]);
        }
    }
    assert(a =~= b);
}

/// `String::push` appends the given character to the end of the string and
/// leaves what was there before in place.
pub assume_specification[ String::push ](s: &mut String, c: char)
    ensures
        final(s)@ == old(s)@.push(c),
;

/// `char::from_u32` gives back the character whose scalar value is `code`, and
/// `None` exactly when `code` is not the scalar value of any character.
pub assume_specification[ char::from_u32 ](code: u32) -> (r: Option<char>)
    ensures
        r == if is_scalar_value(code) { Some(code as char) } else { None },
;

} // verus!
