//! The two `str` operations that the preview pipeline takes from std, with
//! what their documentation promises, and the payload of a preview string.

use vstd::prelude::*;

verus! {

/// Whether `c` has the Unicode `White_Space` property, which is what
/// `str::trim` strips.
pub open spec fn is_white_space(c: char) -> bool {
    ||| '\u{9}' <= c <= '\u{d}'
    ||| c == ' '
    ||| c == '\u{85}'
    ||| c == '\u{a0}'
    ||| c == '\u{1680}'
    ||| '\u{2000}' <= c <= '\u{200a}'
    ||| c == '\u{2028}'
    ||| c == '\u{2029}'
    ||| c == '\u{202f}'
    ||| c == '\u{205f}'
    ||| c == '\u{3000}'
}

/// `s` without its leading white space.
pub open spec fn trim_start_ws(s: Seq<char>) -> Seq<char>
    decreases s.len(),
{
    if s.len() > 0 && is_white_space(s[0]) {
        trim_start_ws(s.drop_first())
    } else {
        s
    }
}

/// `s` without its trailing white space.
pub open spec fn trim_end_ws(s: Seq<char>) -> Seq<char>
    decreases s.len(),
{
    if s.len() > 0 && is_white_space(s.last()) {
        trim_end_ws(s.drop_last())
    } else {
        s
    }
}

/// `s` without its leading and trailing white space.
pub open spec fn trimmed(s: Seq<char>) -> Seq<char> {
    trim_end_ws(trim_start_ws(s))
}

/// What follows the first `delim` in `s`, if `s` holds one.
pub open spec fn text_after_first(s: Seq<char>, delim: char) -> Option<Seq<char>>
    decreases s.len(),
{
    if s.len() == 0 {
        None
    } else if s[0] == delim {
        Some(s.drop_first())
    } else {
        text_after_first(s.drop_first(), delim)
    }
}

/// `str::trim`: the slice of `s` without leading and trailing white space
/// (Unicode `White_Space`), as std documents it.
#[verifier::external_body]
pub(crate) fn trim_str(s: &str) -> (r: &str)
    ensures
        r@ == trimmed(s@),
{
    s.trim()
}

/// `str::split_once` with a `char` pattern: the text before and after the
/// first `delim`, or `None` where `s` holds no `delim`, as std documents it.
#[verifier::external_body]
pub(crate) fn split_once_char<'a>(s: &'a str, delim: char) -> (r: Option<(&'a str, &'a str)>)
    ensures
        match r {
            None => !s@.contains(delim),
            Some((before, after)) => s@ == before@ + seq![delim] + after@ && !before@.contains(delim),
        },
{
    s.split_once(delim)
}

proof fn lemma_after_first_split(before: Seq<char>, delim: char, after: Seq<char>)
    requires
        !before.contains(delim),
    ensures
        text_after_first(before + seq![delim] + after, delim) == Some(after),
    decreases before.len(),
{
    let s = before + seq![delim] + after;
    if before.len() == 0 {
        assert(s =~= seq![delim] + after);
        assert(s.drop_first() =~= after);
    } else {
        assert(before[0] != delim) by {
            assert(before.contains(before[0]) ==> before[0] != delim);
        }
        assert(!before.drop_first().contains(delim)) by {
            if before.drop_first().contains(delim) {
                let k = choose|k: int| 0 <= k < before.drop_first().len() && before.drop_first()[k] == delim;
                assert(before[k + 1] == delim);
            }
        }
        lemma_after_first_split(before.drop_first(), delim, after);
        assert(s.drop_first() =~= before.drop_first() + seq![delim] + after);
    }
}

proof fn lemma_after_first_none(s: Seq<char>, delim: char)
    requires
        !s.contains(delim),
    ensures
        text_after_first(s, delim) is None,
    decreases s.len(),
{
    if s.len() > 0 {
        assert(s[0] != delim) by {
            assert(s.contains(s[0]));
        }
        assert(!s.drop_first().contains(delim)) by {
            if s.drop_first().contains(delim) {
                let k = choose|k: int| 0 <= k < s.drop_first().len() && s.drop_first()[k] == delim;
                assert(s[k + 1] == delim);
            }
        }
        lemma_after_first_none(s.drop_first(), delim);
    }
}

/// The base64 text of a preview string: what follows its first comma, where
/// there is one (a `data:image/png;base64,...` URL), else the whole string;
/// without leading and trailing white space.
pub open spec fn preview_payload(input: Seq<char>) -> Seq<char> {
    match text_after_first(input, ',') {
        Some(rest) => trimmed(rest),
        None => trimmed(input),
    }
}

/// The base64 text of a preview string, as `preview_payload` says.
pub(crate) fn payload_of(input: &str) -> (p: &str)
    ensures
        p@ == preview_payload(input@),
{
    match split_once_char(input, ',') {
        Some((before, after)) => {
            proof {
                lemma_after_first_split(before@, ',', after@);
            }
            trim_str(after)
        },
        None => {
            proof {
                lemma_after_first_none(input@, ',');
            }
            trim_str(input)
        },
    }
}

/// Law: a data-URL header in front of the first comma is dropped, so the
/// payload of `header,rest` is that of the base64 text `rest` alone.
pub proof fn law_data_url_header_is_dropped(header: Seq<char>, rest: Seq<char>)
    requires
        !header.contains(','),
    ensures
        preview_payload(header + seq![','] + rest) == trimmed(rest),
{
    lemma_after_first_split(header, ',', rest);
}

/// Law: a preview string without a comma is plain base64, whose payload is
/// the string itself without surrounding white space.
pub proof fn law_plain_payload_is_trimmed(input: Seq<char>)
    requires
        !input.contains(','),
    ensures
        preview_payload(input) == trimmed(input),
{
    lemma_after_first_none(input, ',');
}

} // verus!
