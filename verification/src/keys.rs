use vstd::prelude::*;
use vstd::string::StrSliceExecFns;

verus! {

/// The four match kinds a registered segment key classifies into.
#[derive(Clone, Copy, Debug, PartialEq, Eq, Structural)]
pub enum KeyKind {
    Literal,
    Regex,
    Param,
    Catchall,
}

/// A key of the exact textual shape `r{<pattern>}`.
pub open spec fn is_regex_key(k: Seq<char>) -> bool {
    k.len() >= 3 && k[0] == 'r' && k[1] == '{' && k[k.len() - 1] == '}'
}

/// The pattern enclosed in a `r{...}` key.
pub open spec fn regex_inner(k: Seq<char>) -> Seq<char> {
    k.subrange(2, k.len() - 1)
}

/// A key beginning with `:`; matches any single concrete segment.
pub open spec fn is_param_key(k: Seq<char>) -> bool {
    k.len() >= 1 && k[0] == ':'
}

/// A key beginning with `*`; entering it consumes the whole remaining path.
pub open spec fn is_catchall_key(k: Seq<char>) -> bool {
    k.len() >= 1 && k[0] == '*'
}

/// A key matched by exact string equality only.
pub open spec fn is_literal_key(k: Seq<char>) -> bool {
    !is_regex_key(k) && !is_param_key(k) && !is_catchall_key(k)
}

/// Classification of a key into exactly one kind; the three special forms are
/// mutually exclusive because they are told apart by the first character.
pub open spec fn classify_spec(k: Seq<char>) -> KeyKind {
    if is_regex_key(k) {
        KeyKind::Regex
    } else if is_param_key(k) {
        KeyKind::Param
    } else if is_catchall_key(k) {
        KeyKind::Catchall
    } else {
        KeyKind::Literal
    }
}

/// The view of a sequence of owned segments as a sequence of character
/// sequences; contracts over paths are stated against this form.
pub open spec fn seg_seq(v: Seq<String>) -> Seq<Seq<char>> {
    Seq::new(v.len(), |i: int| v[i]@)
}

/// Classify one segment key into its match kind.
pub fn classify(key: &String) -> (k: KeyKind)
    ensures
        k == classify_spec(key@),
{
    let s = key.as_str();
    let n = s.unicode_len();
    if n >= 3 && s.get_char(0) == 'r' && s.get_char(1) == '{' && s.get_char(n - 1) == '}' {
        KeyKind::Regex
    } else if n >= 1 && s.get_char(0) == ':' {
        KeyKind::Param
    } else if n >= 1 && s.get_char(0) == '*' {
        KeyKind::Catchall
    } else {
        KeyKind::Literal
    }
}

} // verus!
