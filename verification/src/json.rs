//! The JSON wire format the daemon speaks.
//!
//! Conflict lists and the remote folder tree arrive as JSON text.  A value
//! is parsed into [`Json`]; its mathematical counterpart is [`JsonV`], and
//! the parser is specified by a recursive definition over byte sequences
//! that the executable parser provably mirrors.
//!
//! The accepted texts: objects, arrays, strings, numbers, `true`, `false`
//! and `null`, with ASCII whitespace between tokens.  Strings keep their
//! bytes as they stand (multi-byte characters pass through); the short
//! escapes are decoded and a `\u` escape is rejected.  A number is kept as
//! its raw token — a maximal run of digits, signs, dots and exponent marks —
//! and reads as an integer only when it is a plain digit run.

use vstd::prelude::*;

use crate::bytes::is_ws;

verus! {

broadcast use vstd::std_specs::vec::group_vec_axioms;

/// A parsed JSON value.  Object members keep their order; lookups take the
/// first member with the asked-for name.
pub enum Json {
    Null,
    Bool(bool),
    /// The raw numeric token.
    Num(Vec<u8>),
    /// The decoded string bytes.
    Str(Vec<u8>),
    Arr(Vec<Json>),
    Obj(Vec<(Vec<u8>, Json)>),
}

/// The mathematical form of a JSON value.
pub enum JsonV {
    Null,
    Bool(bool),
    Num(Seq<u8>),
    Str(Seq<u8>),
    Arr(Seq<JsonV>),
    Obj(Seq<(Seq<u8>, JsonV)>),
}

/// The values of a sequence of parsed items.
pub open spec fn items_view(s: Seq<Json>) -> Seq<JsonV>
    decreases s,
{
    Seq::new(
        s.len(),
        |k: int|
            if 0 <= k < s.len() {
                s[k]@
            } else {
                JsonV::Null
            },
    )
}

/// The values of a sequence of parsed members.
pub open spec fn members_view(s: Seq<(Vec<u8>, Json)>) -> Seq<(Seq<u8>, JsonV)>
    decreases s,
{
    Seq::new(
        s.len(),
        |k: int|
            if 0 <= k < s.len() {
                (s[k].0@, s[k].1@)
            } else {
                (Seq::empty(), JsonV::Null)
            },
    )
}

impl View for Json {
    type V = JsonV;

    open spec fn view(&self) -> JsonV
        decreases self,
    {
        match self {
            Json::Null => JsonV::Null,
            Json::Bool(b) => JsonV::Bool(*b),
            Json::Num(n) => JsonV::Num(n@),
            Json::Str(s) => JsonV::Str(s@),
            Json::Arr(items) => JsonV::Arr(items_view(items@)),
            Json::Obj(members) => JsonV::Obj(members_view(members@)),
        }
    }
}

// ---------------------------------------------------------------------------
// The grammar, as recursive spec functions
// ---------------------------------------------------------------------------
// Each function takes the input and a position and yields the parsed piece
// with the position after it, or nothing.  Positions only grow; the bounds
// checks on a returned position below never fail on real results and only
// give the definitions a syntactic termination measure.
/// The byte an escape sequence `\c` decodes to.
pub open spec fn esc_char(c: u8) -> Option<u8> {
    if c == 34 {
        Some(34u8)
    } else if c == 92 {
        Some(92u8)
    } else if c == 47 {
        Some(47u8)
    } else if c == 110 {
        Some(10u8)
    } else if c == 116 {
        Some(9u8)
    } else if c == 114 {
        Some(13u8)
    } else if c == 98 {
        Some(8u8)
    } else if c == 102 {
        Some(12u8)
    } else {
        None
    }
}

/// The decoded body of a string, from just after the opening quote to just
/// after the closing one.
pub open spec fn spec_string_body(s: Seq<u8>, i: int) -> Option<(Seq<u8>, int)>
    decreases s.len() - i,
{
    if !(0 <= i < s.len()) {
        None
    } else if s[i] == 34 {
        Some((Seq::empty(), i + 1))
    } else if s[i] == 92 {
        if i + 1 < s.len() {
            match esc_char(s[i + 1]) {
                Some(c) => match spec_string_body(s, i + 2) {
                    Some((r, j)) => Some((seq![c] + r, j)),
                    None => None,
                },
                None => None,
            }
        } else {
            None
        }
    } else {
        match spec_string_body(s, i + 1) {
            Some((r, j)) => Some((seq![s[i]] + r, j)),
            None => None,
        }
    }
}

/// A character that may stand in a numeric token.
pub open spec fn is_num_char(c: u8) -> bool {
    (48 <= c <= 57) || c == 45 || c == 43 || c == 46 || c == 101 || c == 69
}

/// The end of the numeric token starting at `j`.
pub open spec fn num_end(s: Seq<u8>, j: int) -> int
    decreases s.len() - j,
{
    if !(0 <= j < s.len()) {
        j
    } else if is_num_char(s[j]) {
        num_end(s, j + 1)
    } else {
        j
    }
}

/// Only whitespace from `i` on.
pub open spec fn all_ws(s: Seq<u8>, i: int) -> bool {
    forall|j: int| i <= j < s.len() ==> is_ws(#[trigger] s[j])
}

/// A value, with leading whitespace.
pub open spec fn spec_value(s: Seq<u8>, i: int) -> Option<(JsonV, int)>
    decreases s.len() - i, 0int,
{
    if !(0 <= i < s.len()) {
        None
    } else if is_ws(s[i]) {
        spec_value(s, i + 1)
    } else if s[i] == 34 {
        match spec_string_body(s, i + 1) {
            Some((r, j)) => Some((JsonV::Str(r), j)),
            None => None,
        }
    } else if s[i] == 91 {
        match spec_array_items(s, i + 1) {
            Some((items, j)) => Some((JsonV::Arr(items), j)),
            None => None,
        }
    } else if s[i] == 123 {
        match spec_obj_members(s, i + 1) {
            Some((members, j)) => Some((JsonV::Obj(members), j)),
            None => None,
        }
    } else if s[i] == 116 {
        if i + 4 <= s.len() && s[i + 1] == 114 && s[i + 2] == 117 && s[i + 3] == 101 {
            Some((JsonV::Bool(true), i + 4))
        } else {
            None
        }
    } else if s[i] == 102 {
        if i + 5 <= s.len() && s[i + 1] == 97 && s[i + 2] == 108 && s[i + 3] == 115 && s[i + 4]
            == 101 {
            Some((JsonV::Bool(false), i + 5))
        } else {
            None
        }
    } else if s[i] == 110 {
        if i + 4 <= s.len() && s[i + 1] == 117 && s[i + 2] == 108 && s[i + 3] == 108 {
            Some((JsonV::Null, i + 4))
        } else {
            None
        }
    } else if s[i] == 45 || (48 <= s[i] <= 57) {
        let e = num_end(s, i + 1);
        let e2 = if i + 1 <= e <= s.len() {
            e
        } else {
            i + 1
        };
        Some((JsonV::Num(s.subrange(i, e2)), e2))
    } else {
        None
    }
}

/// The items of an array, from just after `[` to just after `]`; an
/// immediate `]` ends an empty array.
pub open spec fn spec_array_items(s: Seq<u8>, i: int) -> Option<(Seq<JsonV>, int)>
    decreases s.len() - i, 1int,
{
    if !(0 <= i < s.len()) {
        None
    } else if is_ws(s[i]) {
        spec_array_items(s, i + 1)
    } else if s[i] == 93 {
        Some((Seq::empty(), i + 1))
    } else {
        match spec_value(s, i) {
            Some((v, j)) => {
                let j2 = if i < j && j <= s.len() {
                    j
                } else {
                    i + 1
                };
                match spec_array_sep(s, j2) {
                    Some((more, j3)) => Some((seq![v] + more, j3)),
                    None => None,
                }
            },
            None => None,
        }
    }
}

/// After an array item: whitespace, then `,` and the next item or `]`.
pub open spec fn spec_array_sep(s: Seq<u8>, i: int) -> Option<(Seq<JsonV>, int)>
    decreases s.len() - i, 2int,
{
    if !(0 <= i < s.len()) {
        None
    } else if is_ws(s[i]) {
        spec_array_sep(s, i + 1)
    } else if s[i] == 93 {
        Some((Seq::empty(), i + 1))
    } else if s[i] == 44 {
        spec_array_items_more(s, i + 1)
    } else {
        None
    }
}

/// The items after a `,`: as [`spec_array_items`] but an immediate `]` is a
/// trailing comma and is refused.
pub open spec fn spec_array_items_more(s: Seq<u8>, i: int) -> Option<(Seq<JsonV>, int)>
    decreases s.len() - i, 1int,
{
    if !(0 <= i < s.len()) {
        None
    } else if is_ws(s[i]) {
        spec_array_items_more(s, i + 1)
    } else if s[i] == 93 {
        None
    } else {
        match spec_value(s, i) {
            Some((v, j)) => {
                let j2 = if i < j && j <= s.len() {
                    j
                } else {
                    i + 1
                };
                match spec_array_sep(s, j2) {
                    Some((more, j3)) => Some((seq![v] + more, j3)),
                    None => None,
                }
            },
            None => None,
        }
    }
}

/// The members of an object, from just after `{` to just after `}`.
pub open spec fn spec_obj_members(s: Seq<u8>, i: int) -> Option<(Seq<(Seq<u8>, JsonV)>, int)>
    decreases s.len() - i, 1int,
{
    if !(0 <= i < s.len()) {
        None
    } else if is_ws(s[i]) {
        spec_obj_members(s, i + 1)
    } else if s[i] == 125 {
        Some((Seq::empty(), i + 1))
    } else if s[i] == 34 {
        match spec_string_body(s, i + 1) {
            Some((key, j)) => {
                let j2 = if i < j && j <= s.len() {
                    j
                } else {
                    i + 1
                };
                spec_obj_colon(s, j2, key)
            },
            None => None,
        }
    } else {
        None
    }
}

/// The members after a `,`: a key must follow, not `}`.
pub open spec fn spec_obj_members_more(s: Seq<u8>, i: int) -> Option<(Seq<(Seq<u8>, JsonV)>, int)>
    decreases s.len() - i, 1int,
{
    if !(0 <= i < s.len()) {
        None
    } else if is_ws(s[i]) {
        spec_obj_members_more(s, i + 1)
    } else if s[i] == 34 {
        match spec_string_body(s, i + 1) {
            Some((key, j)) => {
                let j2 = if i < j && j <= s.len() {
                    j
                } else {
                    i + 1
                };
                spec_obj_colon(s, j2, key)
            },
            None => None,
        }
    } else {
        None
    }
}

/// After a member's key: whitespace, `:`, the value, and what follows it.
pub open spec fn spec_obj_colon(s: Seq<u8>, i: int, key: Seq<u8>) -> Option<
    (Seq<(Seq<u8>, JsonV)>, int),
>
    decreases s.len() - i, 2int,
{
    if !(0 <= i < s.len()) {
        None
    } else if is_ws(s[i]) {
        spec_obj_colon(s, i + 1, key)
    } else if s[i] == 58 {
        match spec_value(s, i + 1) {
            Some((v, j)) => {
                let j2 = if i < j && j <= s.len() {
                    j
                } else {
                    i + 1
                };
                match spec_obj_sep(s, j2) {
                    Some((more, j3)) => Some((seq![(key, v)] + more, j3)),
                    None => None,
                }
            },
            None => None,
        }
    } else {
        None
    }
}

/// After a member: whitespace, then `,` and the next member or `}`.
pub open spec fn spec_obj_sep(s: Seq<u8>, i: int) -> Option<(Seq<(Seq<u8>, JsonV)>, int)>
    decreases s.len() - i, 3int,
{
    if !(0 <= i < s.len()) {
        None
    } else if is_ws(s[i]) {
        spec_obj_sep(s, i + 1)
    } else if s[i] == 125 {
        Some((Seq::empty(), i + 1))
    } else if s[i] == 44 {
        spec_obj_members_more(s, i + 1)
    } else {
        None
    }
}

/// What a whole text parses to: one value, with whitespace around it.
pub open spec fn spec_parse_json(s: Seq<u8>) -> Option<JsonV> {
    match spec_value(s, 0) {
        Some((v, j)) => if all_ws(s, j) {
            Some(v)
        } else {
            None
        },
        None => None,
    }
}

// ---------------------------------------------------------------------------
// The executable parser
// ---------------------------------------------------------------------------
/// An executable value-and-position result agrees with a specified one.
pub open spec fn value_matches(r: Option<(Json, usize)>, sp: Option<(JsonV, int)>) -> bool {
    match (r, sp) {
        (Some((v, j)), Some((vv, jj))) => v@ == vv && j == jj,
        (None, None) => true,
        _ => false,
    }
}

/// An executable string-and-position result agrees with a specified one.
pub open spec fn str_matches(r: Option<(Vec<u8>, usize)>, sp: Option<(Seq<u8>, int)>) -> bool {
    match (r, sp) {
        (Some((v, j)), Some((vv, jj))) => v@ == vv && j == jj,
        (None, None) => true,
        _ => false,
    }
}

/// An executable item-list result agrees with a specified one.
pub open spec fn items_matches(r: Option<(Vec<Json>, usize)>, sp: Option<(Seq<JsonV>, int)>) -> bool {
    match (r, sp) {
        (Some((v, j)), Some((vv, jj))) => items_view(v@) == vv && j == jj,
        (None, None) => true,
        _ => false,
    }
}

/// An executable member-list result agrees with a specified one.
pub open spec fn members_matches(
    r: Option<(Vec<(Vec<u8>, Json)>, usize)>,
    sp: Option<(Seq<(Seq<u8>, JsonV)>, int)>,
) -> bool {
    match (r, sp) {
        (Some((v, j)), Some((vv, jj))) => members_view(v@) == vv && j == jj,
        (None, None) => true,
        _ => false,
    }
}


/// The view of a built array is the view of its items.
pub proof fn lemma_arr_view(items: &Vec<Json>)
    ensures
        Json::Arr(*items)@ == JsonV::Arr(items_view(items@)),
{
}

/// The view of a built object is the view of its members.
pub proof fn lemma_obj_view(members: &Vec<(Vec<u8>, Json)>)
    ensures
        Json::Obj(*members)@ == JsonV::Obj(members_view(members@)),
{
}

proof fn lemma_items_cons(after: Seq<Json>, v: Json, rest: Seq<Json>)
    requires
        after == rest.insert(0, v),
    ensures
        items_view(after) == seq![v@] + items_view(rest),
{
    assert forall|k: int| 0 <= k < after.len() implies items_view(after)[k] == (seq![v@]
        + items_view(rest))[k] by {
        if k > 0 {
            assert(after[k] == rest[k - 1]);
        }
    }
    assert(items_view(after) =~= seq![v@] + items_view(rest));
}

proof fn lemma_members_cons(after: Seq<(Vec<u8>, Json)>, m: (Vec<u8>, Json), rest: Seq<(Vec<u8>, Json)>)
    requires
        after == rest.insert(0, m),
    ensures
        members_view(after) == seq![(m.0@, m.1@)] + members_view(rest),
{
    assert forall|k: int| 0 <= k < after.len() implies members_view(after)[k] == (seq![(m.0@, m.1@)]
        + members_view(rest))[k] by {
        if k > 0 {
            assert(after[k] == rest[k - 1]);
        }
    }
    assert(members_view(after) =~= seq![(m.0@, m.1@)] + members_view(rest));
}

/// Exec mirror of [`esc_char`].
fn esc_byte(c: u8) -> (r: Option<u8>)
    ensures
        r == esc_char(c),
{
    if c == 34 {
        Some(34)
    } else if c == 92 {
        Some(92)
    } else if c == 47 {
        Some(47)
    } else if c == 110 {
        Some(10)
    } else if c == 116 {
        Some(9)
    } else if c == 114 {
        Some(13)
    } else if c == 98 {
        Some(8)
    } else if c == 102 {
        Some(12)
    } else {
        None
    }
}

/// Exec mirror of [`spec_string_body`].
fn p_string_body(s: &[u8], i: usize) -> (r: Option<(Vec<u8>, usize)>)
    requires
        i <= s@.len(),
    ensures
        str_matches(r, spec_string_body(s@, i as int)),
        r matches Some(p) ==> p.1 <= s@.len(),
    decreases s@.len() - i,
{
    if i >= s.len() {
        return None;
    }
    let c = s[i];
    if c == 34 {
        return Some((Vec::new(), i + 1));
    }
    if c == 92 {
        if i + 1 < s.len() {
            match esc_byte(s[i + 1]) {
                Some(ec) => match p_string_body(s, i + 2) {
                    Some((mut body, j)) => {
                        let ghost rest = body@;
                        body.insert(0, ec);
                        proof {
                            assert(body@ =~= seq![ec] + rest);
                        }
                        Some((body, j))
                    },
                    None => None,
                },
                None => None,
            }
        } else {
            None
        }
    } else {
        match p_string_body(s, i + 1) {
            Some((mut body, j)) => {
                let ghost rest = body@;
                body.insert(0, c);
                proof {
                    assert(body@ =~= seq![c] + rest);
                }
                Some((body, j))
            },
            None => None,
        }
    }
}

/// Exec mirror of [`num_end`].
fn p_num_end(s: &[u8], from: usize) -> (e: usize)
    requires
        from <= s@.len(),
    ensures
        e == num_end(s@, from as int),
        from <= e <= s@.len(),
{
    let mut i: usize = from;
    while i < s.len()
        invariant
            from <= i <= s@.len(),
            num_end(s@, from as int) == num_end(s@, i as int),
        decreases s@.len() - i,
    {
        if !num_byte(s[i]) {
            return i;
        }
        i += 1;
    }
    i
}

/// Exec mirror of [`is_num_char`].
fn num_byte(c: u8) -> (r: bool)
    ensures
        r == is_num_char(c),
{
    (48 <= c && c <= 57) || c == 45 || c == 43 || c == 46 || c == 101 || c == 69
}

/// Exec mirror of [`spec_value`].
fn p_value(s: &[u8], i: usize) -> (r: Option<(Json, usize)>)
    requires
        i <= s@.len(),
    ensures
        value_matches(r, spec_value(s@, i as int)),
        r matches Some(p) ==> p.1 <= s@.len(),
    decreases s@.len() - i, 0int,
{
    if i >= s.len() {
        return None;
    }
    let c = s[i];
    if crate::bytes::ws_byte(c) {
        return p_value(s, i + 1);
    }
    if c == 34 {
        return match p_string_body(s, i + 1) {
            Some((body, j)) => Some((Json::Str(body), j)),
            None => None,
        };
    }
    if c == 91 {
        return match p_array_items(s, i + 1) {
            Some((items, j)) => {
                proof {
                    lemma_arr_view(&items);
                }
                Some((Json::Arr(items), j))
            },
            None => None,
        };
    }
    if c == 123 {
        return match p_obj_members(s, i + 1) {
            Some((members, j)) => {
                proof {
                    lemma_obj_view(&members);
                }
                Some((Json::Obj(members), j))
            },
            None => None,
        };
    }
    if c == 116 {
        return if s.len() - i >= 4 && s[i + 1] == 114 && s[i + 2] == 117 && s[i + 3] == 101 {
            Some((Json::Bool(true), i + 4))
        } else {
            None
        };
    }
    if c == 102 {
        return if s.len() - i >= 5 && s[i + 1] == 97 && s[i + 2] == 108 && s[i + 3] == 115 && s[i
            + 4] == 101 {
            Some((Json::Bool(false), i + 5))
        } else {
            None
        };
    }
    if c == 110 {
        return if s.len() - i >= 4 && s[i + 1] == 117 && s[i + 2] == 108 && s[i + 3] == 108 {
            Some((Json::Null, i + 4))
        } else {
            None
        };
    }
    if c == 45 || (48 <= c && c <= 57) {
        let e = p_num_end(s, i + 1);
        let tok = crate::bytes::bytes_range(s, i, e);
        return Some((Json::Num(tok), e));
    }
    None
}

/// Exec mirror of [`spec_array_items`].
fn p_array_items(s: &[u8], i: usize) -> (r: Option<(Vec<Json>, usize)>)
    requires
        i <= s@.len(),
    ensures
        items_matches(r, spec_array_items(s@, i as int)),
        r matches Some(p) ==> p.1 <= s@.len(),
    decreases s@.len() - i, 1int,
{
    if i >= s.len() {
        return None;
    }
    let c = s[i];
    if crate::bytes::ws_byte(c) {
        return p_array_items(s, i + 1);
    }
    if c == 93 {
        let empty: Vec<Json> = Vec::new();
        proof {
            assert(items_view(empty@) =~= Seq::<JsonV>::empty());
        }
        return Some((empty, i + 1));
    }
    match p_value(s, i) {
        Some((v, j)) => {
            let j2 = if i < j && j <= s.len() {
                j
            } else {
                i + 1
            };
            match p_array_sep(s, j2) {
                Some((mut more, j3)) => {
                    let ghost rest = more@;
                    let ghost vv = v@;
                    more.insert(0, v);
                    proof {
                        lemma_items_cons(more@, more@[0], rest);
                    }
                    Some((more, j3))
                },
                None => None,
            }
        },
        None => None,
    }
}

/// Exec mirror of [`spec_array_sep`].
fn p_array_sep(s: &[u8], i: usize) -> (r: Option<(Vec<Json>, usize)>)
    requires
        i <= s@.len(),
    ensures
        items_matches(r, spec_array_sep(s@, i as int)),
        r matches Some(p) ==> p.1 <= s@.len(),
    decreases s@.len() - i, 2int,
{
    if i >= s.len() {
        return None;
    }
    let c = s[i];
    if crate::bytes::ws_byte(c) {
        return p_array_sep(s, i + 1);
    }
    if c == 93 {
        let empty: Vec<Json> = Vec::new();
        proof {
            assert(items_view(empty@) =~= Seq::<JsonV>::empty());
        }
        return Some((empty, i + 1));
    }
    if c == 44 {
        return p_array_items_more(s, i + 1);
    }
    None
}

/// Exec mirror of [`spec_array_items_more`].
fn p_array_items_more(s: &[u8], i: usize) -> (r: Option<(Vec<Json>, usize)>)
    requires
        i <= s@.len(),
    ensures
        items_matches(r, spec_array_items_more(s@, i as int)),
        r matches Some(p) ==> p.1 <= s@.len(),
    decreases s@.len() - i, 1int,
{
    if i >= s.len() {
        return None;
    }
    let c = s[i];
    if crate::bytes::ws_byte(c) {
        return p_array_items_more(s, i + 1);
    }
    if c == 93 {
        return None;
    }
    match p_value(s, i) {
        Some((v, j)) => {
            let j2 = if i < j && j <= s.len() {
                j
            } else {
                i + 1
            };
            match p_array_sep(s, j2) {
                Some((mut more, j3)) => {
                    let ghost rest = more@;
                    more.insert(0, v);
                    proof {
                        lemma_items_cons(more@, more@[0], rest);
                    }
                    Some((more, j3))
                },
                None => None,
            }
        },
        None => None,
    }
}

/// Exec mirror of [`spec_obj_members`].
fn p_obj_members(s: &[u8], i: usize) -> (r: Option<(Vec<(Vec<u8>, Json)>, usize)>)
    requires
        i <= s@.len(),
    ensures
        members_matches(r, spec_obj_members(s@, i as int)),
        r matches Some(p) ==> p.1 <= s@.len(),
    decreases s@.len() - i, 1int,
{
    if i >= s.len() {
        return None;
    }
    let c = s[i];
    if crate::bytes::ws_byte(c) {
        return p_obj_members(s, i + 1);
    }
    if c == 125 {
        let empty: Vec<(Vec<u8>, Json)> = Vec::new();
        proof {
            assert(members_view(empty@) =~= Seq::<(Seq<u8>, JsonV)>::empty());
        }
        return Some((empty, i + 1));
    }
    if c == 34 {
        return match p_string_body(s, i + 1) {
            Some((key, j)) => {
                let j2 = if i < j && j <= s.len() {
                    j
                } else {
                    i + 1
                };
                p_obj_colon(s, j2, key)
            },
            None => None,
        };
    }
    None
}

/// Exec mirror of [`spec_obj_members_more`].
fn p_obj_members_more(s: &[u8], i: usize) -> (r: Option<(Vec<(Vec<u8>, Json)>, usize)>)
    requires
        i <= s@.len(),
    ensures
        members_matches(r, spec_obj_members_more(s@, i as int)),
        r matches Some(p) ==> p.1 <= s@.len(),
    decreases s@.len() - i, 1int,
{
    if i >= s.len() {
        return None;
    }
    let c = s[i];
    if crate::bytes::ws_byte(c) {
        return p_obj_members_more(s, i + 1);
    }
    if c == 34 {
        return match p_string_body(s, i + 1) {
            Some((key, j)) => {
                let j2 = if i < j && j <= s.len() {
                    j
                } else {
                    i + 1
                };
                p_obj_colon(s, j2, key)
            },
            None => None,
        };
    }
    None
}

/// Exec mirror of [`spec_obj_colon`].
fn p_obj_colon(s: &[u8], i: usize, key: Vec<u8>) -> (r: Option<(Vec<(Vec<u8>, Json)>, usize)>)
    requires
        i <= s@.len(),
    ensures
        members_matches(r, spec_obj_colon(s@, i as int, key@)),
        r matches Some(p) ==> p.1 <= s@.len(),
    decreases s@.len() - i, 2int,
{
    if i >= s.len() {
        return None;
    }
    let c = s[i];
    if crate::bytes::ws_byte(c) {
        return p_obj_colon(s, i + 1, key);
    }
    if c == 58 {
        return match p_value(s, i + 1) {
            Some((v, j)) => {
                let j2 = if i < j && j <= s.len() {
                    j
                } else {
                    i + 1
                };
                match p_obj_sep(s, j2) {
                    Some((mut more, j3)) => {
                        let ghost rest = more@;
                        more.insert(0, (key, v));
                        proof {
                            lemma_members_cons(more@, more@[0], rest);
                        }
                        Some((more, j3))
                    },
                    None => None,
                }
            },
            None => None,
        };
    }
    None
}

/// Exec mirror of [`spec_obj_sep`].
fn p_obj_sep(s: &[u8], i: usize) -> (r: Option<(Vec<(Vec<u8>, Json)>, usize)>)
    requires
        i <= s@.len(),
    ensures
        members_matches(r, spec_obj_sep(s@, i as int)),
        r matches Some(p) ==> p.1 <= s@.len(),
    decreases s@.len() - i, 3int,
{
    if i >= s.len() {
        return None;
    }
    let c = s[i];
    if crate::bytes::ws_byte(c) {
        return p_obj_sep(s, i + 1);
    }
    if c == 125 {
        let empty: Vec<(Vec<u8>, Json)> = Vec::new();
        proof {
            assert(members_view(empty@) =~= Seq::<(Seq<u8>, JsonV)>::empty());
        }
        return Some((empty, i + 1));
    }
    if c == 44 {
        return p_obj_members_more(s, i + 1);
    }
    None
}

/// Whether only whitespace remains from `i` on.
fn ws_from(s: &[u8], i: usize) -> (r: bool)
    requires
        i <= s@.len(),
    ensures
        r == all_ws(s@, i as int),
{
    let mut k: usize = i;
    while k < s.len()
        invariant
            i <= k <= s@.len(),
            forall|j: int| i <= j < k ==> is_ws(#[trigger] s@[j]),
        decreases s@.len() - k,
    {
        if !crate::bytes::ws_byte(s[k]) {
            assert(!all_ws(s@, i as int));
            return false;
        }
        k += 1;
    }
    true
}

/// Parse a whole JSON text: one value with whitespace around it, or nothing
/// when the text is not in the grammar.
pub fn parse_json(s: &[u8]) -> (r: Option<Json>)
    ensures
        match r {
            Some(v) => spec_parse_json(s@) == Some(v@),
            None => spec_parse_json(s@) is None,
        },
{
    match p_value(s, 0) {
        Some((v, j)) => {
            if ws_from(s, j) {
                Some(v)
            } else {
                None
            }
        },
        None => None,
    }
}

// ---------------------------------------------------------------------------
// Reading parsed values
// ---------------------------------------------------------------------------
/// The value of the first member named `key` of an object; nothing on any
/// other value.
pub open spec fn spec_lookup(v: JsonV, key: Seq<u8>) -> Option<JsonV> {
    match v {
        JsonV::Obj(ms) => spec_lookup_members(ms, key),
        _ => None,
    }
}

/// The value of the first member named `key`.
pub open spec fn spec_lookup_members(ms: Seq<(Seq<u8>, JsonV)>, key: Seq<u8>) -> Option<JsonV>
    decreases ms.len(),
{
    if ms.len() == 0 {
        None
    } else if ms[0].0 == key {
        Some(ms[0].1)
    } else {
        spec_lookup_members(ms.drop_first(), key)
    }
}

/// The integer a value reads as: a numeric token that is a plain digit run
/// fitting a `u64`; nothing otherwise.
pub open spec fn spec_as_u64(v: JsonV) -> Option<u64> {
    match v {
        JsonV::Num(tok) => if crate::bytes::is_digits(tok) && crate::bytes::dec_value(tok)
            <= u64::MAX {
            Some(crate::bytes::dec_value(tok) as u64)
        } else {
            None
        },
        _ => None,
    }
}

impl Json {
    /// The first member of this object named `key`.
    pub fn get(&self, key: &[u8]) -> (r: Option<&Json>)
        ensures
            match r {
                Some(v) => spec_lookup(self@, key@) == Some(v@) && (decreases_to!(*self => *v)),
                None => spec_lookup(self@, key@) is None,
            },
    {
        match self {
            Json::Obj(members) => {
                let ghost mv = members_view(members@);
                proof {
                    lemma_obj_view(members);
                    assert(mv.subrange(0, mv.len() as int) =~= mv);
                }
                let mut i: usize = 0;
                while i < members.len()
                    invariant
                        i <= members@.len(),
                        mv == members_view(members@),
                        self@ == JsonV::Obj(mv),
                        *self == Json::Obj(*members),
                        spec_lookup_members(mv, key@) == spec_lookup_members(
                            mv.subrange(i as int, mv.len() as int),
                            key@,
                        ),
                    decreases members@.len() - i,
                {
                    proof {
                        let rest = mv.subrange(i as int, mv.len() as int);
                        assert(rest[0] == mv[i as int]);
                        assert(rest.drop_first() =~= mv.subrange(i + 1 as int, mv.len() as int));
                    }
                    if crate::bytes::bytes_eq(members[i].0.as_slice(), key) {
                        assert(mv[i as int].0 == key@);
                        proof {
                            assert(decreases_to!(*self => *members));
                            assert(decreases_to!(*members => members@[i as int]));
                            assert(decreases_to!(members@[i as int] => members@[i as int].1));
                        }
                        return Some(&members[i].1);
                    }
                    assert(mv[i as int].0 != key@);
                    i += 1;
                }
                proof {
                    assert(mv.subrange(mv.len() as int, mv.len() as int) =~= Seq::<
                        (Seq<u8>, JsonV),
                    >::empty());
                }
                None
            },
            _ => None,
        }
    }

    /// The bytes of this value when it is a string.
    pub fn as_str(&self) -> (r: Option<&Vec<u8>>)
        ensures
            match self@ {
                JsonV::Str(sv) => r matches Some(v) && v@ == sv,
                _ => r is None,
            },
    {
        match self {
            Json::Str(s) => Some(s),
            _ => None,
        }
    }

    /// The integer this value reads as; see [`spec_as_u64`].
    pub fn as_u64(&self) -> (r: Option<u64>)
        ensures
            r == spec_as_u64(self@),
    {
        match self {
            Json::Num(tok) => crate::bytes::parse_u64(tok.as_slice()),
            _ => None,
        }
    }

    /// The bytes of the string member named `key`, when this is an object
    /// with such a member and it is a string.
    pub fn str_field(&self, key: &[u8]) -> (r: Option<Vec<u8>>)
        ensures
            match r {
                Some(v) => spec_str_field(self@, key@) == Some(v@),
                None => spec_str_field(self@, key@) is None,
            },
    {
        match self.get(key) {
            Some(inner) => match inner.as_str() {
                Some(s) => Some(crate::bytes::bytes_of(s.as_slice())),
                None => None,
            },
            None => None,
        }
    }
}

/// The string value of the member named `key`; nothing when the member is
/// missing or not a string.
pub open spec fn spec_str_field(v: JsonV, key: Seq<u8>) -> Option<Seq<u8>> {
    match spec_lookup(v, key) {
        Some(JsonV::Str(s)) => Some(s),
        _ => None,
    }
}

} // verus!
