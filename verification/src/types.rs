//! The type resolver: translation of a textual type expression into a
//! proto3 schema primitive.
//!
//! The grammar is: a scalar from a fixed table, `Vec<T>` (repeated),
//! `Option<T>` (optional), `HashMap<K, V>` / `BTreeMap<K, V>` (map), or a
//! reference to a declared type name. Double wrapping of `repeated` or
//! `optional` is rejected, as are float and byte types in map-key
//! position. `spec_resolve` states the whole translation; every
//! executable function is proved against it.

use vstd::prelude::*;
use vstd::string::StrSliceExecFns;
use vstd::string::StringExecFns;

use crate::text::{
    has_prefix, lemma_trim_len, remove_all, spec_has_prefix, spec_remove_all, spec_trim, str_eq,
    trim,
};
use crate::utils::{ErrorKind, R2Proto3Error};

verus! {

/// The prefix of `s` that precedes its first `//` line comment, or all
/// of `s` when it has none.
pub open spec fn spec_before_comment(s: Seq<char>) -> Seq<char>
    decreases s.len(),
{
    if s.len() >= 2 && s[0] == '/' && s[1] == '/' {
        Seq::empty()
    } else if s.len() == 0 {
        s
    } else {
        seq![s[0]] + spec_before_comment(s.drop_first())
    }
}

/// `s` holds a `//` line comment.
pub open spec fn spec_has_comment(s: Seq<char>) -> bool {
    exists|i: int| 0 <= i && i + 2 <= s.len() && #[trigger] s[i] == '/' && s[i + 1] == '/'
}

/// Normalization applied to a raw type substring before classification:
/// trim, strip a trailing line comment, strip one trailing comma.
pub open spec fn spec_drop_stuff(s: Seq<char>) -> Seq<char> {
    let t = spec_trim(s);
    let u = if spec_has_comment(t) {
        spec_trim(spec_before_comment(t))
    } else {
        t
    };
    if u.len() > 0 && u.last() == ',' {
        u.drop_last()
    } else {
        u
    }
}

proof fn lemma_before_comment_len(s: Seq<char>)
    ensures
        spec_before_comment(s).len() <= s.len(),
    decreases s.len(),
{
    if !(s.len() >= 2 && s[0] == '/' && s[1] == '/') && s.len() > 0 {
        lemma_before_comment_len(s.drop_first());
    }
}

/// Normalization never lengthens its input.
pub proof fn lemma_drop_stuff_len(s: Seq<char>)
    ensures
        spec_drop_stuff(s).len() <= s.len(),
{
    lemma_trim_len(s);
    let t = spec_trim(s);
    if spec_has_comment(t) {
        lemma_before_comment_len(t);
        lemma_trim_len(spec_before_comment(t));
    }
}

proof fn lemma_before_comment_at(s: Seq<char>, i: int)
    requires
        0 <= i,
        i + 2 <= s.len(),
        s[i] == '/',
        s[i + 1] == '/',
        forall|j: int| 0 <= j < i ==> !(#[trigger] s[j] == '/' && s[j + 1] == '/'),
    ensures
        spec_before_comment(s) == s.take(i),
        spec_has_comment(s),
    decreases i,
{
    if i == 0 {
        assert(s.take(0) =~= Seq::<char>::empty());
    } else {
        assert forall|j: int| 0 <= j < i - 1 implies !(#[trigger] s.drop_first()[j] == '/'
            && s.drop_first()[j + 1] == '/') by {
            assert(s.drop_first()[j] == s[j + 1]);
            assert(s.drop_first()[j + 1] == s[j + 2]);
            assert(!(s[j + 1] == '/' && s[j + 2] == '/'));
        }
        lemma_before_comment_at(s.drop_first(), i - 1);
        assert(seq![s[0]] + s.drop_first().take(i - 1) =~= s.take(i));
    }
}

fn find_comment(s: &str) -> (r: Option<usize>)
    ensures
        match r {
            Some(i) => i + 2 <= s@.len() && s@[i as int] == '/' && s@[i + 1] == '/' && (forall|j: int|
                0 <= j < i ==> !(#[trigger] s@[j] == '/' && s@[j + 1] == '/')),
            None => forall|j: int| 0 <= j && j + 2 <= s@.len() ==> !(#[trigger] s@[j] == '/' && s@[j + 1] == '/'),
        },
{
    let n = s.unicode_len();
    if n < 2 {
        return None;
    }
    let mut i: usize = 0;
    while i + 1 < n
        invariant
            n == s@.len(),
            n >= 2,
            i <= n - 1,
            forall|j: int| 0 <= j < i ==> !(#[trigger] s@[j] == '/' && s@[j + 1] == '/'),
        decreases n - i,
    {
        if s.get_char(i) == '/' && s.get_char(i + 1) == '/' {
            return Some(i);
        }
        i += 1;
    }
    None
}

/// The removal of visibility qualifiers from a field name.
pub open spec fn spec_clear_name(s: Seq<char>) -> Seq<char> {
    spec_remove_all(
        spec_remove_all(spec_remove_all(s, "pub "@), "pub(crate) "@),
        "pub(super) "@,
    )
}

/// An opening delimiter tracked by the argument splitter.
pub open spec fn is_opener(c: char) -> bool {
    c == '<' || c == '(' || c == '['
}

/// A closing delimiter tracked by the argument splitter.
pub open spec fn is_closer(c: char) -> bool {
    c == '>' || c == ')' || c == ']'
}

/// The opener that a closer must match.
pub open spec fn opener_for(c: char) -> char {
    if c == '>' {
        '<'
    } else if c == ')' {
        '('
    } else {
        '['
    }
}

/// One left-to-right scan of the splitter: position `i`, the stack of
/// currently open delimiters, the start of the current argument, and the
/// arguments already produced. `None` marks a delimiter mismatch.
pub open spec fn split_scan(
    s: Seq<char>,
    i: int,
    stack: Seq<char>,
    start: int,
    acc: Seq<Seq<char>>,
) -> Option<Seq<Seq<char>>>
    decreases s.len() - i,
{
    if i < 0 || i >= s.len() {
        Some(acc.push(s.subrange(start, s.len() as int)))
    } else {
        let c = s[i];
        if is_opener(c) {
            split_scan(s, i + 1, stack.push(c), start, acc)
        } else if is_closer(c) {
            if stack.len() > 0 && stack.last() == opener_for(c) {
                split_scan(s, i + 1, stack.drop_last(), start, acc)
            } else {
                None
            }
        } else if c == ',' && stack.len() == 0 {
            split_scan(s, i + 1, stack, i + 1, acc.push(s.subrange(start, i)))
        } else {
            split_scan(s, i + 1, stack, start, acc)
        }
    }
}

/// Splitting the inner text of a multi-argument wrapper on top-level
/// commas only.
pub open spec fn spec_split(s: Seq<char>) -> Option<Seq<Seq<char>>> {
    split_scan(s, 0, Seq::empty(), 0, Seq::empty())
}

/// Every argument the splitter produces is no longer than its input.
pub proof fn lemma_split_scan_bounds(
    s: Seq<char>,
    i: int,
    stack: Seq<char>,
    start: int,
    acc: Seq<Seq<char>>,
)
    requires
        0 <= start <= i,
        start <= s.len(),
        forall|k: int| 0 <= k < acc.len() ==> #[trigger] acc[k].len() <= s.len(),
    ensures
        match split_scan(s, i, stack, start, acc) {
            Some(parts) => forall|k: int| 0 <= k < parts.len() ==> #[trigger] parts[k].len() <= s.len(),
            None => true,
        },
    decreases s.len() - i,
{
    if i >= s.len() {
        let parts = acc.push(s.subrange(start, s.len() as int));
        assert forall|k: int| 0 <= k < parts.len() implies #[trigger] parts[k].len() <= s.len() by {
            if k < acc.len() {
                assert(parts[k] == acc[k]);
            } else {
                assert(parts[k] == s.subrange(start, s.len() as int));
            }
        }
    } else {
        let c = s[i];
        if is_opener(c) {
            lemma_split_scan_bounds(s, i + 1, stack.push(c), start, acc);
        } else if is_closer(c) {
            if stack.len() > 0 && stack.last() == opener_for(c) {
                lemma_split_scan_bounds(s, i + 1, stack.drop_last(), start, acc);
            }
        } else if c == ',' && stack.len() == 0 {
            let acc2 = acc.push(s.subrange(start, i));
            assert forall|k: int| 0 <= k < acc2.len() implies #[trigger] acc2[k].len() <= s.len() by {
                if k < acc.len() {
                    assert(acc2[k] == acc[k]);
                } else {
                    assert(acc2[k] == s.subrange(start, i));
                }
            }
            lemma_split_scan_bounds(s, i + 1, stack, i + 1, acc2);
        } else {
            lemma_split_scan_bounds(s, i + 1, stack, start, acc);
        }
    }
}

/// `known` holds the name `n`.
pub open spec fn known_contains(known: Seq<Seq<char>>, n: Seq<char>) -> bool {
    exists|i: int| 0 <= i < known.len() && known[i] == n
}

/// The whole resolution of a type expression into a schema primitive,
/// following the order: scalar table, container, optional, map, declared
/// type name.
pub open spec fn spec_resolve(expr: Seq<char>, known: Seq<Seq<char>>, for_map_key: bool) -> Result<
    Seq<char>,
    ErrorKind,
>
    decreases expr.len(),
    via spec_resolve_dec
{
    if expr == "f64"@ {
        if for_map_key {
            Err(ErrorKind::UnsupportedMapKey)
        } else {
            Ok("double"@)
        }
    } else if expr == "f32"@ || expr == "f16"@ || expr == "f8"@ {
        if for_map_key {
            Err(ErrorKind::UnsupportedMapKey)
        } else {
            Ok("float"@)
        }
    } else if expr == "i64"@ {
        Ok("int64"@)
    } else if expr == "i32"@ || expr == "i16"@ || expr == "i8"@ {
        Ok("int32"@)
    } else if expr == "u64"@ {
        Ok("uint64"@)
    } else if expr == "u32"@ || expr == "u16"@ || expr == "u8"@ {
        Ok("uint32"@)
    } else if expr == "bool"@ {
        Ok("bool"@)
    } else if expr == "String"@ {
        Ok("string"@)
    } else if expr == "Vec<u8>"@ {
        if for_map_key {
            Err(ErrorKind::UnsupportedMapKey)
        } else {
            Ok("bytes"@)
        }
    } else if spec_has_prefix(expr, "Vec<"@) && expr.len() > "Vec<"@.len() && expr.last() == '>' {
        let inner = expr.subrange("Vec<"@.len() as int, expr.len() - 1);
        match spec_resolve(inner, known, false) {
            Err(k) => Err(k),
            Ok(t) => if spec_has_prefix(t, "repeated"@) {
                Err(ErrorKind::DoubleWrapped)
            } else {
                Ok("repeated "@ + t)
            },
        }
    } else if spec_has_prefix(expr, "Option<"@) && expr.len() > "Option<"@.len() && expr.last() == '>' {
        let inner = expr.subrange("Option<"@.len() as int, expr.len() - 1);
        match spec_resolve(inner, known, false) {
            Err(k) => Err(k),
            Ok(t) => if spec_has_prefix(t, "optional"@) {
                Err(ErrorKind::DoubleWrapped)
            } else {
                Ok("optional "@ + t)
            },
        }
    } else if (spec_has_prefix(expr, "HashMap<"@) || spec_has_prefix(expr, "BTreeMap<"@))
        && expr.len() > 0 && expr.last() == '>' {
        let plen = if spec_has_prefix(expr, "HashMap<"@) {
            "HashMap<"@.len() as int
        } else {
            "BTreeMap<"@.len() as int
        };
        if expr.len() <= plen {
            Err(ErrorKind::UnknownType)
        } else {
            let inner = expr.subrange(plen, expr.len() - 1);
            match spec_split(inner) {
                None => Err(ErrorKind::MismatchedDelimiters),
                Some(args) => if args.len() != 2 {
                    Err(ErrorKind::WrongArity)
                } else {
                    match spec_resolve(spec_drop_stuff(args[0]), known, true) {
                        Err(k) => Err(k),
                        Ok(kt) => match spec_resolve(spec_drop_stuff(args[1]), known, false) {
                            Err(k) => Err(k),
                            Ok(vt) => Ok("map<"@ + kt + ", "@ + vt + ">"@),
                        },
                    }
                },
            }
        }
    } else if known_contains(known, expr) {
        Ok(expr)
    } else {
        Err(ErrorKind::UnknownType)
    }
}

#[via_fn]
proof fn spec_resolve_dec(expr: Seq<char>, known: Seq<Seq<char>>, for_map_key: bool) {
    if (spec_has_prefix(expr, "HashMap<"@) || spec_has_prefix(expr, "BTreeMap<"@)) && expr.len() > 0
        && expr.last() == '>' {
        let plen = if spec_has_prefix(expr, "HashMap<"@) {
            "HashMap<"@.len() as int
        } else {
            "BTreeMap<"@.len() as int
        };
        if expr.len() > plen {
            let inner = expr.subrange(plen, expr.len() - 1);
            match spec_split(inner) {
                None => {},
                Some(args) => {
                    lemma_split_scan_bounds(inner, 0, Seq::empty(), 0, Seq::empty());
                    if args.len() == 2 {
                        lemma_drop_stuff_len(args[0]);
                        lemma_drop_stuff_len(args[1]);
                        assert(spec_drop_stuff(args[0]).len() < expr.len());
                        assert(spec_drop_stuff(args[1]).len() < expr.len());
                    }
                },
            }
        }
    }
}

/// The fixed scalar table: every scalar expression resolves to exactly
/// its mapped primitive, and the float and byte types are rejected
/// exactly in map-key position while every other scalar is accepted
/// there unchanged.
#[verifier::rlimit(100)]
pub proof fn lemma_scalar_table(known: Seq<Seq<char>>)
    ensures
        spec_resolve("f64"@, known, false) == Ok::<Seq<char>, ErrorKind>("double"@),
        spec_resolve("f32"@, known, false) == Ok::<Seq<char>, ErrorKind>("float"@),
        spec_resolve("f16"@, known, false) == Ok::<Seq<char>, ErrorKind>("float"@),
        spec_resolve("f8"@, known, false) == Ok::<Seq<char>, ErrorKind>("float"@),
        spec_resolve("i64"@, known, false) == Ok::<Seq<char>, ErrorKind>("int64"@),
        spec_resolve("i32"@, known, false) == Ok::<Seq<char>, ErrorKind>("int32"@),
        spec_resolve("i16"@, known, false) == Ok::<Seq<char>, ErrorKind>("int32"@),
        spec_resolve("i8"@, known, false) == Ok::<Seq<char>, ErrorKind>("int32"@),
        spec_resolve("u64"@, known, false) == Ok::<Seq<char>, ErrorKind>("uint64"@),
        spec_resolve("u32"@, known, false) == Ok::<Seq<char>, ErrorKind>("uint32"@),
        spec_resolve("u16"@, known, false) == Ok::<Seq<char>, ErrorKind>("uint32"@),
        spec_resolve("u8"@, known, false) == Ok::<Seq<char>, ErrorKind>("uint32"@),
        spec_resolve("bool"@, known, false) == Ok::<Seq<char>, ErrorKind>("bool"@),
        spec_resolve("String"@, known, false) == Ok::<Seq<char>, ErrorKind>("string"@),
        spec_resolve("Vec<u8>"@, known, false) == Ok::<Seq<char>, ErrorKind>("bytes"@),
        spec_resolve("f64"@, known, true) == Err::<Seq<char>, ErrorKind>(
            ErrorKind::UnsupportedMapKey,
        ),
        spec_resolve("f32"@, known, true) == Err::<Seq<char>, ErrorKind>(
            ErrorKind::UnsupportedMapKey,
        ),
        spec_resolve("f16"@, known, true) == Err::<Seq<char>, ErrorKind>(
            ErrorKind::UnsupportedMapKey,
        ),
        spec_resolve("f8"@, known, true) == Err::<Seq<char>, ErrorKind>(
            ErrorKind::UnsupportedMapKey,
        ),
        spec_resolve("Vec<u8>"@, known, true) == Err::<Seq<char>, ErrorKind>(
            ErrorKind::UnsupportedMapKey,
        ),
        spec_resolve("i64"@, known, true) == Ok::<Seq<char>, ErrorKind>("int64"@),
        spec_resolve("i32"@, known, true) == Ok::<Seq<char>, ErrorKind>("int32"@),
        spec_resolve("i16"@, known, true) == Ok::<Seq<char>, ErrorKind>("int32"@),
        spec_resolve("i8"@, known, true) == Ok::<Seq<char>, ErrorKind>("int32"@),
        spec_resolve("u64"@, known, true) == Ok::<Seq<char>, ErrorKind>("uint64"@),
        spec_resolve("u32"@, known, true) == Ok::<Seq<char>, ErrorKind>("uint32"@),
        spec_resolve("u16"@, known, true) == Ok::<Seq<char>, ErrorKind>("uint32"@),
        spec_resolve("u8"@, known, true) == Ok::<Seq<char>, ErrorKind>("uint32"@),
        spec_resolve("bool"@, known, true) == Ok::<Seq<char>, ErrorKind>("bool"@),
        spec_resolve("String"@, known, true) == Ok::<Seq<char>, ErrorKind>("string"@),
{
    lemma_scalar_lits();
}

proof fn lemma_scalar_lits()
    ensures
        "f64"@ == seq!['f', '6', '4'],
        "f32"@ == seq!['f', '3', '2'],
        "f16"@ == seq!['f', '1', '6'],
        "f8"@ == seq!['f', '8'],
        "i64"@ == seq!['i', '6', '4'],
        "i32"@ == seq!['i', '3', '2'],
        "i16"@ == seq!['i', '1', '6'],
        "i8"@ == seq!['i', '8'],
        "u64"@ == seq!['u', '6', '4'],
        "u32"@ == seq!['u', '3', '2'],
        "u16"@ == seq!['u', '1', '6'],
        "u8"@ == seq!['u', '8'],
        "bool"@ == seq!['b', 'o', 'o', 'l'],
        "String"@ == seq!['S', 't', 'r', 'i', 'n', 'g'],
        "Vec<u8>"@ == seq!['V', 'e', 'c', '<', 'u', '8', '>'],
        "Vec<"@ == seq!['V', 'e', 'c', '<'],
        "Option<"@ == seq!['O', 'p', 't', 'i', 'o', 'n', '<'],
        "HashMap<"@ == seq!['H', 'a', 's', 'h', 'M', 'a', 'p', '<'],
        "BTreeMap<"@ == seq!['B', 'T', 'r', 'e', 'e', 'M', 'a', 'p', '<'],
        ">"@ == seq!['>'],
{
    reveal_strlit("f64");
    reveal_strlit("f32");
    reveal_strlit("f16");
    reveal_strlit("f8");
    reveal_strlit("i64");
    reveal_strlit("i32");
    reveal_strlit("i16");
    reveal_strlit("i8");
    reveal_strlit("u64");
    reveal_strlit("u32");
    reveal_strlit("u16");
    reveal_strlit("u8");
    reveal_strlit("bool");
    reveal_strlit("String");
    reveal_strlit("Vec<u8>");
    reveal_strlit("Vec<");
    reveal_strlit("Option<");
    reveal_strlit("HashMap<");
    reveal_strlit("BTreeMap<");
    reveal_strlit(">");
    assert("f64"@ =~= seq!['f', '6', '4']);
    assert("f32"@ =~= seq!['f', '3', '2']);
    assert("f16"@ =~= seq!['f', '1', '6']);
    assert("f8"@ =~= seq!['f', '8']);
    assert("i64"@ =~= seq!['i', '6', '4']);
    assert("i32"@ =~= seq!['i', '3', '2']);
    assert("i16"@ =~= seq!['i', '1', '6']);
    assert("i8"@ =~= seq!['i', '8']);
    assert("u64"@ =~= seq!['u', '6', '4']);
    assert("u32"@ =~= seq!['u', '3', '2']);
    assert("u16"@ =~= seq!['u', '1', '6']);
    assert("u8"@ =~= seq!['u', '8']);
    assert("bool"@ =~= seq!['b', 'o', 'o', 'l']);
    assert("String"@ =~= seq!['S', 't', 'r', 'i', 'n', 'g']);
    assert("Vec<u8>"@ =~= seq!['V', 'e', 'c', '<', 'u', '8', '>']);
    assert("Vec<"@ =~= seq!['V', 'e', 'c', '<']);
    assert("Option<"@ =~= seq!['O', 'p', 't', 'i', 'o', 'n', '<']);
    assert("HashMap<"@ =~= seq!['H', 'a', 's', 'h', 'M', 'a', 'p', '<']);
    assert("BTreeMap<"@ =~= seq!['B', 'T', 'r', 'e', 'e', 'M', 'a', 'p', '<']);
    assert(">"@ =~= seq!['>']);
}

/// An expression of the shape `Option<T>` falls to no earlier rule of
/// the resolution order.
proof fn lemma_option_shape(t: Seq<char>, known: Seq<Seq<char>>)
    ensures
        ({
            let expr = "Option<"@ + t + ">"@;
            match spec_resolve(t, known, false) {
                Err(k) => spec_resolve(expr, known, false) == Err::<Seq<char>, ErrorKind>(k),
                Ok(r) => if spec_has_prefix(r, "optional"@) {
                    spec_resolve(expr, known, false) == Err::<Seq<char>, ErrorKind>(
                        ErrorKind::DoubleWrapped,
                    )
                } else {
                    spec_resolve(expr, known, false) == Ok::<Seq<char>, ErrorKind>("optional "@ + r)
                },
            }
        }),
{
    lemma_scalar_lits();
    let expr = "Option<"@ + t + ">"@;
    assert(expr[0] == 'O');
    assert(spec_has_prefix(expr, "Option<"@)) by {
        assert(expr.take(7) =~= "Option<"@);
    }
    assert(expr.last() == '>');
    assert(!spec_has_prefix(expr, "Vec<"@)) by {
        if spec_has_prefix(expr, "Vec<"@) {
            assert(expr.take(4)[0] == 'V');
        }
    }
    assert(expr.subrange(7, expr.len() - 1) =~= t);
}

/// For every `T` that resolves, `Option<T>` resolves to
/// `optional <resolved T>`, and wrapping an already optional result is
/// rejected as `DoubleWrapped`, never flattened.
pub proof fn lemma_optional_wrap(t: Seq<char>, known: Seq<Seq<char>>)
    requires
        spec_resolve(t, known, false) is Ok,
    ensures
        !spec_has_prefix(spec_resolve(t, known, false)->Ok_0, "optional"@) ==> spec_resolve(
            "Option<"@ + t + ">"@,
            known,
            false,
        ) == Ok::<Seq<char>, ErrorKind>("optional "@ + spec_resolve(t, known, false)->Ok_0),
        spec_has_prefix(spec_resolve(t, known, false)->Ok_0, "optional"@) ==> spec_resolve(
            "Option<"@ + t + ">"@,
            known,
            false,
        ) == Err::<Seq<char>, ErrorKind>(ErrorKind::DoubleWrapped),
{
    lemma_option_shape(t, known);
}

/// `Option<Option<T>>` always fails with `DoubleWrapped` whenever
/// `Option<T>` itself resolves.
pub proof fn lemma_optional_double(t: Seq<char>, known: Seq<Seq<char>>)
    requires
        spec_resolve("Option<"@ + t + ">"@, known, false) is Ok,
    ensures
        spec_resolve("Option<"@ + ("Option<"@ + t + ">"@) + ">"@, known, false) == Err::<
            Seq<char>,
            ErrorKind,
        >(ErrorKind::DoubleWrapped),
{
    reveal_strlit("optional");
    reveal_strlit("optional ");
    lemma_option_shape("Option<"@ + t + ">"@, known);
    let r = spec_resolve("Option<"@ + t + ">"@, known, false)->Ok_0;
    assert(spec_has_prefix(r, "optional"@)) by {
        lemma_option_shape(t, known);
        assert(r.take(8) =~= "optional"@);
    }
}

/// An expression of the shape `Vec<T>` with `T` other than `u8` falls to
/// no earlier rule of the resolution order.
proof fn lemma_list_shape(t: Seq<char>, known: Seq<Seq<char>>)
    requires
        t != "u8"@,
    ensures
        ({
            let expr = "Vec<"@ + t + ">"@;
            match spec_resolve(t, known, false) {
                Err(k) => spec_resolve(expr, known, false) == Err::<Seq<char>, ErrorKind>(k),
                Ok(r) => if spec_has_prefix(r, "repeated"@) {
                    spec_resolve(expr, known, false) == Err::<Seq<char>, ErrorKind>(
                        ErrorKind::DoubleWrapped,
                    )
                } else {
                    spec_resolve(expr, known, false) == Ok::<Seq<char>, ErrorKind>("repeated "@ + r)
                },
            }
        }),
{
    lemma_scalar_lits();
    let expr = "Vec<"@ + t + ">"@;
    assert(expr[0] == 'V');
    assert(spec_has_prefix(expr, "Vec<"@)) by {
        assert(expr.take(4) =~= "Vec<"@);
    }
    assert(expr.last() == '>');
    assert(expr != "Vec<u8>"@) by {
        if expr == "Vec<u8>"@ {
            assert(expr.len() == 7);
            assert(t.len() == 2);
            assert(t[0] == expr[4]);
            assert(t[1] == expr[5]);
            assert(t =~= "u8"@);
        }
    }
    assert(expr.subrange(4, expr.len() - 1) =~= t);
}

/// For every `T` other than `u8` that resolves, `Vec<T>` resolves to
/// `repeated <resolved T>`, and wrapping an already repeated result is
/// rejected as `DoubleWrapped`.
pub proof fn lemma_list_wrap(t: Seq<char>, known: Seq<Seq<char>>)
    requires
        spec_resolve(t, known, false) is Ok,
        t != "u8"@,
    ensures
        !spec_has_prefix(spec_resolve(t, known, false)->Ok_0, "repeated"@) ==> spec_resolve(
            "Vec<"@ + t + ">"@,
            known,
            false,
        ) == Ok::<Seq<char>, ErrorKind>("repeated "@ + spec_resolve(t, known, false)->Ok_0),
        spec_has_prefix(spec_resolve(t, known, false)->Ok_0, "repeated"@) ==> spec_resolve(
            "Vec<"@ + t + ">"@,
            known,
            false,
        ) == Err::<Seq<char>, ErrorKind>(ErrorKind::DoubleWrapped),
{
    lemma_list_shape(t, known);
}

/// `Vec<Vec<T>>` always fails with `DoubleWrapped` whenever `Vec<T>`
/// itself resolves as a container.
pub proof fn lemma_list_double(t: Seq<char>, known: Seq<Seq<char>>)
    requires
        t != "u8"@,
        spec_resolve("Vec<"@ + t + ">"@, known, false) is Ok,
    ensures
        spec_resolve("Vec<"@ + ("Vec<"@ + t + ">"@) + ">"@, known, false) == Err::<
            Seq<char>,
            ErrorKind,
        >(ErrorKind::DoubleWrapped),
{
    reveal_strlit("repeated");
    reveal_strlit("repeated ");
    reveal_strlit("u8");
    reveal_strlit("Vec<");
    reveal_strlit(">");
    assert("Vec<"@ + t + ">"@ != "u8"@) by {
        assert(("Vec<"@ + t + ">"@)[0] == 'V');
        assert("u8"@[0] == 'u');
    }
    lemma_list_shape("Vec<"@ + t + ">"@, known);
    let r = spec_resolve("Vec<"@ + t + ">"@, known, false)->Ok_0;
    assert(spec_has_prefix(r, "repeated"@)) by {
        lemma_list_shape(t, known);
        assert(r.take(8) =~= "repeated"@);
    }
}

/// The stateless translator of type expressions.
pub struct TypesParser {}

impl TypesParser {
    /// Builds a translator. The matching rules are fixed, so nothing can
    /// fail here.
    pub fn new() -> (r: TypesParser) {
        TypesParser {  }
    }

    /// Trims a raw type substring, strips a trailing line comment and one
    /// trailing comma.
    pub fn drop_type_unnecessary_stuff(rust_type: &str) -> (r: String)
        ensures
            r@ == spec_drop_stuff(rust_type@),
    {
        let t = trim(rust_type);
        let afterc: &str = match find_comment(t) {
            Some(p) => {
                proof {
                    lemma_before_comment_at(t@, p as int);
                }
                trim(t.substring_char(0, p))
            },
            None => t,
        };
        let m = afterc.unicode_len();
        if m > 0 && afterc.get_char(m - 1) == ',' {
            let r = afterc.substring_char(0, m - 1).to_owned();
            proof {
                assert(afterc@.subrange(0, m - 1) =~= afterc@.drop_last());
            }
            r
        } else {
            afterc.to_owned()
        }
    }

    /// Strips visibility qualifiers from a field name.
    pub fn clear_type_name(name: &str) -> (r: String)
        ensures
            r@ == spec_clear_name(name@),
    {
        proof {
            reveal_strlit("pub ");
            reveal_strlit("pub(crate) ");
            reveal_strlit("pub(super) ");
        }
        let a = remove_all(name, "pub ");
        let b = remove_all(a.as_str(), "pub(crate) ");
        remove_all(b.as_str(), "pub(super) ")
    }

    /// Splits the inner text of a wrapper on top-level commas, checking
    /// that each closing delimiter matches the most recently opened one.
    pub fn split_inner_types(inner: &str) -> (r: Result<Vec<String>, R2Proto3Error>)
        ensures
            match r {
                Ok(v) => spec_split(inner@) == Some(v.deep_view()),
                Err(e) => spec_split(inner@) is None && e.spec_kind() == ErrorKind::MismatchedDelimiters,
            },
    {
        let n = inner.unicode_len();
        let mut stack: Vec<char> = Vec::new();
        let mut types: Vec<String> = Vec::new();
        let mut begin: usize = 0;
        let mut i: usize = 0;
        proof {
            assert(stack@ =~= Seq::<char>::empty());
            assert(types.deep_view() =~= Seq::<Seq<char>>::empty());
        }
        while i < n
            invariant
                n == inner@.len(),
                begin <= i <= n,
                spec_split(inner@) == split_scan(
                    inner@,
                    i as int,
                    stack@,
                    begin as int,
                    types.deep_view(),
                ),
            decreases n - i,
        {
            let c = inner.get_char(i);
            if c == '<' || c == '(' || c == '[' {
                stack.push(c);
            } else if c == '>' || c == ')' || c == ']' {
                let o = if c == '>' {
                    '<'
                } else if c == ')' {
                    '('
                } else {
                    '['
                };
                proof {
                    assert(o == opener_for(c));
                }
                if stack.len() == 0 {
                    return Err(
                        R2Proto3Error::new(
                            ErrorKind::MismatchedDelimiters,
                            "can't parse inner types due to invalid types' openers and closers (`<([` and `>)]` stack".to_owned(),
                        ),
                    );
                }
                let top = stack.pop().unwrap();
                if top != o {
                    return Err(
                        R2Proto3Error::new(
                            ErrorKind::MismatchedDelimiters,
                            "can't parse inner types due to invalid types' openers and closers (`<([` and `>)]` stack".to_owned(),
                        ),
                    );
                }
            } else if c == ',' && stack.len() == 0 {
                let piece = inner.substring_char(begin, i).to_owned();
                let ghost old_deep = types.deep_view();
                types.push(piece);
                proof {
                    assert(types.deep_view() =~= old_deep.push(inner@.subrange(begin as int, i as int)));
                }
                begin = i + 1;
            }
            i += 1;
        }
        let last = inner.substring_char(begin, n).to_owned();
        let ghost old_deep = types.deep_view();
        types.push(last);
        proof {
            assert(types.deep_view() =~= old_deep.push(inner@.subrange(begin as int, n as int)));
        }
        Ok(types)
    }

    /// Resolves a raw type expression into its proto3 primitive, or the
    /// structural error that rejects it.
    pub fn rust_type_to_protobuf(
        &self,
        rust_type: &str,
        known_types: &Vec<String>,
        for_map_key: bool,
    ) -> (r: Result<String, R2Proto3Error>)
        ensures
            match r {
                Ok(s) => spec_resolve(rust_type@, known_types.deep_view(), for_map_key) == Ok::<
                    Seq<char>,
                    ErrorKind,
                >(s@),
                Err(e) => spec_resolve(rust_type@, known_types.deep_view(), for_map_key) == Err::<
                    Seq<char>,
                    ErrorKind,
                >(e.spec_kind()),
            },
        decreases rust_type@.len(),
    {
        proof {
            reveal_strlit("Vec<");
            reveal_strlit("Option<");
            reveal_strlit("HashMap<");
            reveal_strlit("BTreeMap<");
        }
        let n = rust_type.unicode_len();
        if str_eq(rust_type, "f64") {
            if !for_map_key {
                Ok("double".to_owned())
            } else {
                Err(Self::key_error(rust_type))
            }
        } else if str_eq(rust_type, "f32") || str_eq(rust_type, "f16") || str_eq(rust_type, "f8") {
            if !for_map_key {
                Ok("float".to_owned())
            } else {
                Err(Self::key_error(rust_type))
            }
        } else if str_eq(rust_type, "i64") {
            Ok("int64".to_owned())
        } else if str_eq(rust_type, "i32") || str_eq(rust_type, "i16") || str_eq(rust_type, "i8") {
            Ok("int32".to_owned())
        } else if str_eq(rust_type, "u64") {
            Ok("uint64".to_owned())
        } else if str_eq(rust_type, "u32") || str_eq(rust_type, "u16") || str_eq(rust_type, "u8") {
            Ok("uint32".to_owned())
        } else if str_eq(rust_type, "bool") {
            Ok("bool".to_owned())
        } else if str_eq(rust_type, "String") {
            Ok("string".to_owned())
        } else if str_eq(rust_type, "Vec<u8>") {
            if !for_map_key {
                Ok("bytes".to_owned())
            } else {
                Err(Self::key_error(rust_type))
            }
        } else if has_prefix(rust_type, "Vec<") && n > 4 && rust_type.get_char(n - 1) == '>' {
            let inner = rust_type.substring_char(4, n - 1);
            match self.rust_type_to_protobuf(inner, known_types, false) {
                Err(e) => Err(e),
                Ok(t) => {
                    if has_prefix(t.as_str(), "repeated") {
                        Err(
                            R2Proto3Error::new(
                                ErrorKind::DoubleWrapped,
                                "need to use `repeated` twice: consider not to use Vec<Vec<_>> etc.".to_owned(),
                            ),
                        )
                    } else {
                        Ok("repeated ".to_owned().concat(t.as_str()))
                    }
                },
            }
        } else if has_prefix(rust_type, "Option<") && n > 7 && rust_type.get_char(n - 1) == '>' {
            let inner = rust_type.substring_char(7, n - 1);
            match self.rust_type_to_protobuf(inner, known_types, false) {
                Err(e) => Err(e),
                Ok(t) => {
                    if has_prefix(t.as_str(), "optional") {
                        Err(
                            R2Proto3Error::new(
                                ErrorKind::DoubleWrapped,
                                "need to use `optional` twice: consider not to use Option<Option<_>> etc.".to_owned(),
                            ),
                        )
                    } else {
                        Ok("optional ".to_owned().concat(t.as_str()))
                    }
                },
            }
        } else if (has_prefix(rust_type, "HashMap<") || has_prefix(rust_type, "BTreeMap<")) && n > 0
            && rust_type.get_char(n - 1) == '>' {
            let plen: usize = if has_prefix(rust_type, "HashMap<") {
                8
            } else {
                9
            };
            if n <= plen {
                Err(
                    R2Proto3Error::new(
                        ErrorKind::UnknownType,
                        "unknown type - `".to_owned().concat(rust_type).concat("`"),
                    ),
                )
            } else {
                let inner = rust_type.substring_char(plen, n - 1);
                match Self::split_inner_types(inner) {
                    Err(e) => Err(e),
                    Ok(parts) => {
                        if parts.len() != 2 {
                            proof {
                                assert(parts.deep_view().len() == parts@.len());
                            }
                            Err(
                                R2Proto3Error::new(
                                    ErrorKind::WrongArity,
                                    "there is only one or more than 2 inner types of `HashMap`/`BTreeMap`".to_owned(),
                                ),
                            )
                        } else {
                            let key_raw = Self::drop_type_unnecessary_stuff(parts[0].as_str());
                            let value_raw = Self::drop_type_unnecessary_stuff(parts[1].as_str());
                            proof {
                                lemma_split_scan_bounds(inner@, 0, Seq::empty(), 0, Seq::empty());
                                lemma_drop_stuff_len(parts.deep_view()[0]);
                                lemma_drop_stuff_len(parts.deep_view()[1]);
                                assert(parts.deep_view()[0] == parts@[0]@);
                                assert(parts.deep_view()[1] == parts@[1]@);
                            }
                            match self.rust_type_to_protobuf(key_raw.as_str(), known_types, true) {
                                Err(e) => Err(e),
                                Ok(kt) => {
                                    match self.rust_type_to_protobuf(
                                        value_raw.as_str(),
                                        known_types,
                                        false,
                                    ) {
                                        Err(e) => Err(e),
                                        Ok(vt) => {
                                            Ok(
                                                "map<".to_owned().concat(kt.as_str()).concat(
                                                    ", ",
                                                ).concat(vt.as_str()).concat(">"),
                                            )
                                        },
                                    }
                                },
                            }
                        }
                    },
                }
            }
        } else {
            if Self::contains_name(known_types, rust_type) {
                Ok(rust_type.to_owned())
            } else {
                Err(
                    R2Proto3Error::new(
                        ErrorKind::UnknownType,
                        "unknown type - `".to_owned().concat(rust_type).concat("`"),
                    ),
                )
            }
        }
    }

    fn key_error(rust_type: &str) -> (r: R2Proto3Error)
        ensures
            r.spec_kind() == ErrorKind::UnsupportedMapKey,
    {
        R2Proto3Error::new(
            ErrorKind::UnsupportedMapKey,
            "this key type is not supported by `proto3`: ".to_owned().concat(rust_type),
        )
    }

    fn contains_name(known_types: &Vec<String>, n: &str) -> (r: bool)
        ensures
            r == known_contains(known_types.deep_view(), n@),
    {
        let mut i: usize = 0;
        while i < known_types.len()
            invariant
                i <= known_types@.len(),
                forall|j: int| 0 <= j < i ==> known_types.deep_view()[j] != n@,
            decreases known_types@.len() - i,
        {
            if str_eq(known_types[i].as_str(), n) {
                proof {
                    assert(known_types.deep_view()[i as int] == n@);
                }
                return true;
            }
            i += 1;
        }
        false
    }
}

} // verus!
