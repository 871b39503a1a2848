//! Title normalization: the canonical form item titles are compared in when
//! free-text input is matched against the catalog.
use vstd::prelude::*;
use vstd::string::*;

verus! {

/// What `str::to_lowercase` yields; the result depends on the characters of
/// the input alone.
pub uninterp spec fn lower_of(s: Seq<char>) -> Seq<char>;

/// Which characters `char::is_alphanumeric` accepts.
pub uninterp spec fn is_alnum_char(c: char) -> bool;

/// Which characters `char::is_whitespace` accepts.
pub uninterp spec fn is_space_char(c: char) -> bool;

/// Relies on str::to_lowercase: the Unicode lowercasing of a string, a pure
/// function of its characters.
#[verifier::external_body]
fn to_lower(s: &str) -> (r: String)
    ensures
        r@ == lower_of(s@),
{
    s.to_lowercase()
}

/// Relies on char::is_alphanumeric: a pure predicate on the character.
pub assume_specification[ char::is_alphanumeric ](c: char) -> (r: bool)
    ensures
        r == is_alnum_char(c),
;

/// Relies on char::is_whitespace: a pure predicate on the character.
pub assume_specification[ char::is_whitespace ](c: char) -> (r: bool)
    ensures
        r == is_space_char(c),
;

/// Is this character kept by normalization?
pub open spec fn keep_char(c: char) -> bool {
    is_alnum_char(c) || is_space_char(c)
}

/// The subsequence of `s` whose characters normalization keeps.
pub open spec fn normalized_of(s: Seq<char>) -> Seq<char>
    decreases s.len(),
{
    if s.len() == 0 {
        Seq::empty()
    } else {
        normalized_of(s.drop_last()) + if keep_char(s.last()) {
            seq![s.last()]
        } else {
            Seq::empty()
        }
    }
}

/// Lowercase a title and keep only its alphanumeric and whitespace
/// characters.
pub fn normalize_title(title: &str) -> (r: String)
    ensures
        r@ == normalized_of(lower_of(title@)),
{
    let low = to_lower(title);
    let lowstr = low.as_str();
    let n = lowstr.unicode_len();
    let mut out = String::from_str("");
    let mut i: usize = 0;
    proof {
        reveal_strlit("");
        assert(lowstr@.take(0) =~= Seq::<char>::empty());
        assert(out@ =~= normalized_of(lowstr@.take(0)));
    }
    while i < n
        invariant
            lowstr@ == lower_of(title@),
            n == lowstr@.len(),
            0 <= i <= n,
            out@ == normalized_of(lowstr@.take(i as int)),
        decreases n - i,
    {
        let c = lowstr.get_char(i);
        let ghost tki = lowstr@.take(i as int);
        let ghost tki1 = lowstr@.take(i as int + 1);
        proof {
            assert(tki1.drop_last() =~= tki);
            assert(tki1.last() == lowstr@[i as int]);
        }
        if c.is_alphanumeric() || c.is_whitespace() {
            let piece = lowstr.substring_char(i, i + 1);
            proof {
                assert(piece@ =~= seq![c]);
            }
            out.append(piece);
            proof {
                assert(out@ =~= normalized_of(tki1));
            }
        } else {
            proof {
                assert(normalized_of(tki1) =~= normalized_of(tki));
            }
        }
        i += 1;
    }
    proof {
        assert(lowstr@.take(n as int) =~= lowstr@);
    }
    out
}

} // verus!
