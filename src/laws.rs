//! Laws of the resolver, stated over the model of `parse`.

use vstd::prelude::*;
use crate::numeric::unsigned_of;
use crate::parse::{fill, find_key, find_text, finish, folded_keys, has_key, parse_spec, parse_with, put, read_arg, read_elems, scalar_of, scan};
use crate::parse::lemma_read_arg_advances;
use crate::schema::{all_decls, distinct_names, fits, schema_sound, scalar_fits, ArgModel, Collection, CommandModel, ScalarType};
use crate::text::lower_of;
use crate::value::{Fault, Val};

verus! {

proof fn lemma_read_elems_valid(
    ty: ScalarType,
    toks: Seq<Seq<char>>,
    start: int,
    k: int,
    n: int,
    acc: Seq<Val>,
)
    requires
        0 <= start,
        0 <= k <= n,
        start + k <= toks.len(),
        forall|j: int|
            k <= j < n && start + j < toks.len() ==> (#[trigger] scalar_of(ty, toks[start + j])) is Some,
    ensures
        start + n <= toks.len() ==> read_elems(ty, toks, start, k, n, acc) == Ok::<Seq<Val>, Fault>(
            acc + Seq::new((n - k) as nat, |j: int| scalar_of(ty, toks[start + k + j])->Some_0),
        ),
        start + n > toks.len() ==> read_elems(ty, toks, start, k, n, acc) == Err::<Seq<Val>, Fault>(
            Fault::Arity,
        ),
    decreases n - k,
{
    if k < n {
        if start + k < toks.len() {
            let v = scalar_of(ty, toks[start + k])->Some_0;
            assert(scalar_of(ty, toks[start + k]) is Some);
            lemma_read_elems_valid(ty, toks, start, k + 1, n, acc.push(v));
            assert(acc.push(v) + Seq::new(
                (n - (k + 1)) as nat,
                |j: int| scalar_of(ty, toks[start + (k + 1) + j])->Some_0,
            ) =~= acc + Seq::new((n - k) as nat, |j: int| scalar_of(ty, toks[start + k + j])->Some_0));
        }
    } else {
        assert(acc + Seq::new(0, |j: int| scalar_of(ty, toks[start + k + j])->Some_0) =~= acc);
    }
}

/// A sequence argument whose length token `n` is followed by `n` valid
/// element tokens reads exactly those elements, in input order, and ends
/// just past the last; where the line ends before `n` elements, all of them
/// valid so far, it fails with `Arity`.
pub proof fn lemma_sequence_reads(a: ArgModel, toks: Seq<Seq<char>>, i: int, n: u64)
    requires
        a.kind == Collection::Vec,
        0 <= i < toks.len(),
        unsigned_of(toks[i]) == Some(n),
        forall|k: int|
            0 <= k < n && i + 1 + k < toks.len() ==> (#[trigger] scalar_of(a.ty, toks[i + 1 + k])) is Some,
    ensures
        i + 1 + n <= toks.len() ==> read_arg(a, toks, i) == Ok::<(Val, int), Fault>(
            (
                Val::List(Seq::new(n as nat, |k: int| scalar_of(a.ty, toks[i + 1 + k])->Some_0)),
                i + 1 + n,
            ),
        ),
        i + 1 + n > toks.len() ==> read_arg(a, toks, i) == Err::<(Val, int), Fault>(Fault::Arity),
{
    assert forall|j: int| 0 <= j < n && (i + 1) + j < toks.len() implies (#[trigger] scalar_of(
        a.ty,
        toks[(i + 1) + j],
    )) is Some by {
        assert(scalar_of(a.ty, toks[i + 1 + j]) is Some);
    }
    lemma_read_elems_valid(a.ty, toks, i + 1, 0, n as int, Seq::empty());
    assert(Seq::<Val>::empty() + Seq::new(
        (n - 0) as nat,
        |j: int| scalar_of(a.ty, toks[(i + 1) + 0 + j])->Some_0,
    ) =~= Seq::new(n as nat, |k: int| scalar_of(a.ty, toks[i + 1 + k])->Some_0));
}

/// Some entry of `res` is named `x`.
pub open spec fn bound(res: Seq<(Seq<char>, Val)>, x: Seq<char>) -> bool {
    exists|j: int| 0 <= j < res.len() && (#[trigger] res[j]).0 == x
}

/// No two entries of `res` share a name.
pub open spec fn unique_keys(res: Seq<(Seq<char>, Val)>) -> bool {
    forall|i: int, j: int|
        0 <= i < res.len() && 0 <= j < res.len() && i != j ==> (#[trigger] res[i]).0 != (#[trigger] res[j]).0
}

/// Some declaration of `args` from index `k` on is named `x`.
pub open spec fn named_from(args: Seq<ArgModel>, k: int, x: Seq<char>) -> bool {
    exists|j: int| k <= j < args.len() && (#[trigger] args[j]).name == x
}

/// `x` names a required, optional or named declaration of `c`.
pub open spec fn declared(c: CommandModel, x: Seq<char>) -> bool {
    named_from(c.required, 0, x) || named_from(c.optional, 0, x) || named_from(c.kwargs, 0, x)
}

proof fn lemma_find_key(res: Seq<(Seq<char>, Val)>, x: Seq<char>, i: int)
    requires
        0 <= i <= res.len(),
    ensures
        i <= find_key(res, x, i) <= res.len(),
        find_key(res, x, i) < res.len() ==> res[find_key(res, x, i)].0 == x,
        forall|j: int| i <= j < find_key(res, x, i) ==> (#[trigger] res[j]).0 != x,
    decreases res.len() - i,
{
    if i < res.len() {
        lemma_find_key(res, x, i + 1);
    }
}

proof fn lemma_has_key(res: Seq<(Seq<char>, Val)>, x: Seq<char>)
    ensures
        has_key(res, x) == bound(res, x),
{
    lemma_find_key(res, x, 0);
    let k = find_key(res, x, 0);
    if k < res.len() {
        assert(res[k].0 == x);
    }
    if bound(res, x) {
        let j = choose|j: int| 0 <= j < res.len() && (#[trigger] res[j]).0 == x;
        assert(!(j < k));
    }
}

proof fn lemma_put(res: Seq<(Seq<char>, Val)>, name: Seq<char>, v: Val)
    requires
        unique_keys(res),
    ensures
        unique_keys(put(res, name, v)),
        forall|x: Seq<char>| bound(put(res, name, v), x) <==> (bound(res, x) || x == name),
{
    lemma_find_key(res, name, 0);
    let k = find_key(res, name, 0);
    let r = put(res, name, v);
    if k < res.len() {
        assert forall|j: int| 0 <= j < r.len() implies (#[trigger] r[j]).0 == res[j].0 by {}
        assert forall|x: Seq<char>| bound(r, x) <==> (bound(res, x) || x == name) by {
            if bound(r, x) {
                let j = choose|j: int| 0 <= j < r.len() && (#[trigger] r[j]).0 == x;
                assert(res[j].0 == x);
            }
            if bound(res, x) {
                let j = choose|j: int| 0 <= j < res.len() && (#[trigger] res[j]).0 == x;
                assert(r[j].0 == x);
            }
            if x == name {
                assert(r[k].0 == x);
            }
        }
    } else {
        assert forall|x: Seq<char>| bound(r, x) <==> (bound(res, x) || x == name) by {
            if bound(r, x) {
                let j = choose|j: int| 0 <= j < r.len() && (#[trigger] r[j]).0 == x;
                if j < res.len() {
                    assert(res[j].0 == x);
                }
            }
            if bound(res, x) {
                let j = choose|j: int| 0 <= j < res.len() && (#[trigger] res[j]).0 == x;
                assert(r[j].0 == x);
            }
            if x == name {
                assert(r[res.len() as int].0 == x);
            }
        }
        assert forall|i: int, j: int|
            0 <= i < r.len() && 0 <= j < r.len() && i != j implies (#[trigger] r[i]).0 != (
            #[trigger] r[j]).0 by {
            if i < res.len() && j < res.len() {
                assert(r[i] == res[i] && r[j] == res[j]);
            } else if i < res.len() {
                assert(r[i] == res[i]);
            } else {
                assert(r[j] == res[j]);
            }
        }
    }
}

proof fn lemma_named_from_step(args: Seq<ArgModel>, k: int)
    requires
        0 <= k < args.len(),
    ensures
        forall|x: Seq<char>|
            named_from(args, k, x) <==> (named_from(args, k + 1, x) || args[k].name == x),
{
    assert forall|x: Seq<char>|
        named_from(args, k, x) <==> (named_from(args, k + 1, x) || args[k].name == x) by {
        if named_from(args, k, x) {
            let j = choose|j: int| k <= j < args.len() && (#[trigger] args[j]).name == x;
            if j > k {
                assert(named_from(args, k + 1, x));
            }
        }
        if named_from(args, k + 1, x) {
            let j = choose|j: int| k + 1 <= j < args.len() && (#[trigger] args[j]).name == x;
            assert(k <= j < args.len());
        }
        if args[k].name == x {
            assert(named_from(args, k, x));
        }
    }
}

proof fn lemma_fill(args: Seq<ArgModel>, res: Seq<(Seq<char>, Val)>, k: int)
    requires
        0 <= k <= args.len(),
        unique_keys(res),
        fill(args, res, k) is Ok,
    ensures
        unique_keys(fill(args, res, k)->Ok_0),
        forall|x: Seq<char>|
            bound(fill(args, res, k)->Ok_0, x) <==> (bound(res, x) || named_from(args, k, x)),
    decreases args.len() - k,
{
    if k < args.len() {
        let a = args[k];
        lemma_named_from_step(args, k);
        lemma_has_key(res, a.name);
        let r = fill(args, res, k)->Ok_0;
        if has_key(res, a.name) {
            lemma_fill(args, res, k + 1);
            assert forall|x: Seq<char>|
                bound(r, x) <==> (bound(res, x) || named_from(args, k, x)) by {
                if x == a.name {
                    assert(bound(res, x));
                }
            }
        } else {
            let d = a.default->Some_0;
            let next = put(res, a.name, d);
            lemma_put(res, a.name, d);
            lemma_fill(args, next, k + 1);
            assert forall|x: Seq<char>|
                bound(r, x) <==> (bound(res, x) || named_from(args, k, x)) by {
                assert(bound(next, x) <==> (bound(res, x) || x == a.name));
            }
        }
    }
}

proof fn lemma_finish(c: CommandModel, res: Seq<(Seq<char>, Val)>)
    requires
        unique_keys(res),
        forall|x: Seq<char>| bound(res, x) ==> declared(c, x),
        finish(c, res) is Ok,
    ensures
        unique_keys(finish(c, res)->Ok_0),
        forall|x: Seq<char>| bound(finish(c, res)->Ok_0, x) <==> declared(c, x),
{
    lemma_fill(c.required, res, 0);
    let r1 = fill(c.required, res, 0)->Ok_0;
    lemma_fill(c.optional, r1, 0);
    let r2 = fill(c.optional, r1, 0)->Ok_0;
    lemma_fill(c.kwargs, r2, 0);
    let r3 = fill(c.kwargs, r2, 0)->Ok_0;
    assert(finish(c, res) == Ok::<Seq<(Seq<char>, Val)>, Fault>(r3));
    assert forall|x: Seq<char>| bound(r3, x) <==> declared(c, x) by {
        if bound(res, x) {
            assert(declared(c, x));
        }
    }
}

proof fn lemma_scan(
    c: CommandModel,
    toks: Seq<Seq<char>>,
    low: Seq<Seq<char>>,
    keys: Seq<Seq<char>>,
    i: int,
    req: int,
    opt: int,
    open: bool,
    res: Seq<(Seq<char>, Val)>,
)
    requires
        unique_keys(res),
        forall|x: Seq<char>| bound(res, x) ==> declared(c, x),
        scan(c, toks, low, keys, i, req, opt, open, res) is Ok,
    ensures
        unique_keys(scan(c, toks, low, keys, i, req, opt, open, res)->Ok_0),
        forall|x: Seq<char>| bound(scan(c, toks, low, keys, i, req, opt, open, res)->Ok_0, x) <==> declared(c, x),
    decreases toks.len() - i,
{
    if i < 0 || i >= toks.len() {
        lemma_finish(c, res);
    } else if 0 <= req < c.required.len() {
        let a = c.required[req];
        lemma_read_arg_advances(a, toks, i);
        let (v, j) = read_arg(a, toks, i)->Ok_0;
        lemma_put(res, a.name, v);
        assert(named_from(c.required, 0, a.name));
        lemma_scan(c, toks, low, keys, j, req + 1, opt, open, put(res, a.name, v));
    } else {
        let k = find_text(keys, low[i], 0);
        if 0 <= k < keys.len() && k < c.kwargs.len() {
            let a = c.kwargs[k];
            lemma_read_arg_advances(a, toks, i + 1);
            let (v, j) = read_arg(a, toks, i + 1)->Ok_0;
            lemma_put(res, a.name, v);
            assert(named_from(c.kwargs, 0, a.name));
            lemma_scan(c, toks, low, keys, j, req, opt, false, put(res, a.name, v));
        } else {
            let a = c.optional[opt];
            lemma_read_arg_advances(a, toks, i);
            let (v, j) = read_arg(a, toks, i)->Ok_0;
            lemma_put(res, a.name, v);
            assert(named_from(c.optional, 0, a.name));
            lemma_scan(c, toks, low, keys, j, req, opt + 1, open, put(res, a.name, v));
        }
    }
}

/// A successful parse binds every declared argument name exactly once, and
/// binds no other name.
pub proof fn lemma_parse_binds_each_name_once(
    c: CommandModel,
    toks: Seq<Seq<char>>,
    low: Seq<Seq<char>>,
)
    requires
        parse_spec(c, toks, low) is Ok,
    ensures
        unique_keys(parse_spec(c, toks, low)->Ok_0),
        forall|x: Seq<char>| has_key(parse_spec(c, toks, low)->Ok_0, x) <==> declared(c, x),
{
    let r = parse_spec(c, toks, low)->Ok_0;
    let keys = folded_keys(c.kwargs);
    lemma_scan(c, toks, low, keys, 1, 0, 0, true, Seq::empty());
    assert forall|x: Seq<char>| has_key(r, x) <==> declared(c, x) by {
        lemma_has_key(r, x);
    }
}

/// Each declaration of `args` paired with its default.
pub open spec fn defaults_of(args: Seq<ArgModel>) -> Seq<(Seq<char>, Val)> {
    args.map_values(|a: ArgModel| (a.name, a.default->Some_0))
}

proof fn lemma_fill_present(args: Seq<ArgModel>, res: Seq<(Seq<char>, Val)>, k: int)
    requires
        0 <= k <= args.len(),
        forall|j: int| k <= j < args.len() ==> bound(res, (#[trigger] args[j]).name),
    ensures
        fill(args, res, k) == Ok::<Seq<(Seq<char>, Val)>, Fault>(res),
    decreases args.len() - k,
{
    if k < args.len() {
        lemma_has_key(res, args[k].name);
        lemma_fill_present(args, res, k + 1);
    }
}

proof fn lemma_fill_absent(args: Seq<ArgModel>, res: Seq<(Seq<char>, Val)>, k: int)
    requires
        0 <= k <= args.len(),
        distinct_names(args),
        forall|j: int|
            k <= j < args.len() ==> (#[trigger] args[j]).default is Some && !bound(res, args[j].name),
    ensures
        fill(args, res, k) == Ok::<Seq<(Seq<char>, Val)>, Fault>(
            res + defaults_of(args.subrange(k, args.len() as int)),
        ),
    decreases args.len() - k,
{
    if k < args.len() {
        let a = args[k];
        let d = a.default->Some_0;
        lemma_has_key(res, a.name);
        lemma_find_key(res, a.name, 0);
        let next = res.push((a.name, d));
        assert(put(res, a.name, d) == next);
        assert forall|j: int| k + 1 <= j < args.len() implies (#[trigger] args[j]).default is Some
            && !bound(next, args[j].name) by {
            if bound(next, args[j].name) {
                let m = choose|m: int| 0 <= m < next.len() && (#[trigger] next[m]).0 == args[j].name;
                if m < res.len() {
                    assert(res[m].0 == args[j].name);
                } else {
                    assert(args[k].name != args[j].name);
                }
            }
        }
        lemma_fill_absent(args, next, k + 1);
        assert(next + defaults_of(args.subrange(k + 1, args.len() as int)) =~= res + defaults_of(
            args.subrange(k, args.len() as int),
        ));
    } else {
        assert(res + defaults_of(args.subrange(k, args.len() as int)) =~= res);
    }
}

/// Completion after a scan that bound every required positional and none of
/// the optional positional or named arguments: each optional and then each
/// named argument is bound to its declared default, in declaration order,
/// after what the scan bound.
pub proof fn lemma_omitted_take_defaults(c: CommandModel, res: Seq<(Seq<char>, Val)>)
    requires
        distinct_names(c.optional + c.kwargs),
        forall|k: int| 0 <= k < c.optional.len() ==> (#[trigger] c.optional[k]).default is Some,
        forall|k: int| 0 <= k < c.kwargs.len() ==> (#[trigger] c.kwargs[k]).default is Some,
        forall|k: int| 0 <= k < c.required.len() ==> bound(res, (#[trigger] c.required[k]).name),
        forall|k: int| 0 <= k < c.optional.len() ==> !bound(res, (#[trigger] c.optional[k]).name),
        forall|k: int| 0 <= k < c.kwargs.len() ==> !bound(res, (#[trigger] c.kwargs[k]).name),
    ensures
        finish(c, res) == Ok::<Seq<(Seq<char>, Val)>, Fault>(
            res + defaults_of(c.optional) + defaults_of(c.kwargs),
        ),
{
    let all = c.optional + c.kwargs;
    let no = c.optional.len() as int;
    assert(distinct_names(c.optional)) by {
        assert forall|i: int, j: int|
            0 <= i < no && 0 <= j < no && i != j implies (#[trigger] c.optional[i]).name != (
            #[trigger] c.optional[j]).name by {
            assert(all[i] == c.optional[i] && all[j] == c.optional[j]);
        }
    }
    assert(distinct_names(c.kwargs)) by {
        assert forall|i: int, j: int|
            0 <= i < c.kwargs.len() && 0 <= j < c.kwargs.len() && i != j implies (
            #[trigger] c.kwargs[i]).name != (#[trigger] c.kwargs[j]).name by {
            assert(all[no + i] == c.kwargs[i] && all[no + j] == c.kwargs[j]);
        }
    }
    lemma_fill_present(c.required, res, 0);
    lemma_fill_absent(c.optional, res, 0);
    assert(c.optional.subrange(0, no) =~= c.optional);
    let r2 = res + defaults_of(c.optional);
    assert forall|j: int| 0 <= j < c.kwargs.len() implies (#[trigger] c.kwargs[j]).default is Some
        && !bound(r2, c.kwargs[j].name) by {
        if bound(r2, c.kwargs[j].name) {
            let m = choose|m: int| 0 <= m < r2.len() && (#[trigger] r2[m]).0 == c.kwargs[j].name;
            if m < res.len() {
                assert(res[m].0 == c.kwargs[j].name);
            } else {
                let i = m - res.len();
                assert(r2[m] == defaults_of(c.optional)[i]);
                assert(all[i] == c.optional[i] && all[no + j] == c.kwargs[j]);
            }
        }
    }
    lemma_fill_absent(c.kwargs, r2, 0);
    assert(c.kwargs.subrange(0, c.kwargs.len() as int) =~= c.kwargs);
}

/// A line that holds the command name alone, against a schema with no
/// required positionals, binds each optional and then each named argument
/// to its declared default, in declaration order.
pub proof fn lemma_name_alone_gives_defaults(
    c: CommandModel,
    toks: Seq<Seq<char>>,
    low: Seq<Seq<char>>,
)
    requires
        c.required.len() == 0,
        distinct_names(c.optional + c.kwargs),
        forall|k: int| 0 <= k < c.optional.len() ==> (#[trigger] c.optional[k]).default is Some,
        forall|k: int| 0 <= k < c.kwargs.len() ==> (#[trigger] c.kwargs[k]).default is Some,
        toks.len() == 1,
        low.len() == 1,
        low[0] == lower_of(c.name),
    ensures
        parse_spec(c, toks, low) == Ok::<Seq<(Seq<char>, Val)>, Fault>(
            defaults_of(c.optional) + defaults_of(c.kwargs),
        ),
{
    let e = Seq::<(Seq<char>, Val)>::empty();
    lemma_omitted_take_defaults(c, e);
    assert(e + defaults_of(c.optional) =~= defaults_of(c.optional));
}

/// While a required positional is unfilled, the next token is read as its
/// value, whether or not that token names a keyword.
pub proof fn lemma_required_before_keywords(
    c: CommandModel,
    toks: Seq<Seq<char>>,
    low: Seq<Seq<char>>,
    keys: Seq<Seq<char>>,
    i: int,
    req: int,
    opt: int,
    open: bool,
    res: Seq<(Seq<char>, Val)>,
)
    requires
        0 <= i < toks.len(),
        0 <= req < c.required.len(),
    ensures
        scan(c, toks, low, keys, i, req, opt, open, res) == match read_arg(c.required[req], toks, i) {
            Err(f) => Err(f),
            Ok((v, j)) => scan(c, toks, low, keys, j, req + 1, opt, open, put(res, c.required[req].name, v)),
        },
{
}

/// The required positionals `req` bound to the values `vals`, in order.
pub open spec fn bind_all(req: Seq<ArgModel>, vals: Seq<Val>) -> Seq<(Seq<char>, Val)> {
    Seq::new(req.len(), |k: int| (req[k].name, vals[k]))
}

proof fn lemma_scan_required(
    c: CommandModel,
    toks: Seq<Seq<char>>,
    low: Seq<Seq<char>>,
    keys: Seq<Seq<char>>,
    pos: Seq<int>,
    vals: Seq<Val>,
    k: int,
)
    requires
        0 <= k <= c.required.len(),
        distinct_names(c.required),
        pos.len() == c.required.len() + 1,
        vals.len() == c.required.len(),
        forall|m: int| 0 <= m < c.required.len() ==> 0 <= #[trigger] pos[m] < toks.len(),
        forall|m: int|
            0 <= m < c.required.len() ==> #[trigger] read_arg(c.required[m], toks, pos[m]) == Ok::<
                (Val, int),
                Fault,
            >((vals[m], pos[m + 1])),
    ensures
        scan(c, toks, low, keys, pos[k], k, 0, true, bind_all(c.required, vals).subrange(0, k)) == scan(
            c,
            toks,
            low,
            keys,
            pos[c.required.len() as int],
            c.required.len() as int,
            0,
            true,
            bind_all(c.required, vals),
        ),
    decreases c.required.len() - k,
{
    let all = bind_all(c.required, vals);
    let r = c.required.len() as int;
    if k == r {
        assert(all.subrange(0, k) =~= all);
    } else {
        let a = c.required[k];
        let pre = all.subrange(0, k);
        assert(read_arg(c.required[k], toks, pos[k]) == Ok::<(Val, int), Fault>((vals[k], pos[k + 1])));
        lemma_has_key(pre, a.name);
        lemma_find_key(pre, a.name, 0);
        if bound(pre, a.name) {
            let m = choose|m: int| 0 <= m < pre.len() && (#[trigger] pre[m]).0 == a.name;
            assert(c.required[m].name == a.name);
        }
        assert(put(pre, a.name, vals[k]) =~= all.subrange(0, k + 1));
        lemma_scan_required(c, toks, low, keys, pos, vals, k + 1);
    }
}

/// A line that names the command and then gives each required positional,
/// in order and up to the end of the line, a value that reads in full,
/// parses: against a schema whose names are all distinct and whose optional
/// positional and named arguments all have defaults, each required
/// positional is bound to the value read for it, then each optional and
/// each named argument to its default.
pub proof fn lemma_required_values_parse(
    c: CommandModel,
    toks: Seq<Seq<char>>,
    low: Seq<Seq<char>>,
    pos: Seq<int>,
    vals: Seq<Val>,
)
    requires
        toks.len() >= 1,
        low.len() == toks.len(),
        low[0] == lower_of(c.name),
        distinct_names(c.required + c.optional + c.kwargs),
        forall|k: int| 0 <= k < c.optional.len() ==> (#[trigger] c.optional[k]).default is Some,
        forall|k: int| 0 <= k < c.kwargs.len() ==> (#[trigger] c.kwargs[k]).default is Some,
        pos.len() == c.required.len() + 1,
        vals.len() == c.required.len(),
        pos[0] == 1,
        pos[c.required.len() as int] == toks.len(),
        forall|m: int| 0 <= m < c.required.len() ==> 0 <= #[trigger] pos[m] < toks.len(),
        forall|m: int|
            0 <= m < c.required.len() ==> #[trigger] read_arg(c.required[m], toks, pos[m]) == Ok::<
                (Val, int),
                Fault,
            >((vals[m], pos[m + 1])),
    ensures
        parse_spec(c, toks, low) == Ok::<Seq<(Seq<char>, Val)>, Fault>(
            bind_all(c.required, vals) + defaults_of(c.optional) + defaults_of(c.kwargs),
        ),
{
    let keys = folded_keys(c.kwargs);
    let all = c.required + c.optional + c.kwargs;
    let r = c.required.len() as int;
    let o = c.optional.len() as int;
    let b = bind_all(c.required, vals);
    assert forall|i: int, j: int| 0 <= i < r && 0 <= j < r && i != j implies (
    #[trigger] c.required[i]).name != (#[trigger] c.required[j]).name by {
        assert(all[i] == c.required[i] && all[j] == c.required[j]);
    }
    let rest = c.optional + c.kwargs;
    assert forall|i: int, j: int|
        0 <= i < rest.len() && 0 <= j < rest.len() && i != j implies (#[trigger] rest[i]).name != (
        #[trigger] rest[j]).name by {
        assert(all[r + i] == rest[i] && all[r + j] == rest[j]);
    }
    assert forall|k: int| 0 <= k < r implies bound(b, (#[trigger] c.required[k]).name) by {
        assert(b[k].0 == c.required[k].name);
    }
    assert forall|k: int| 0 <= k < o implies !bound(b, (#[trigger] c.optional[k]).name) by {
        if bound(b, c.optional[k].name) {
            let m = choose|m: int| 0 <= m < b.len() && (#[trigger] b[m]).0 == c.optional[k].name;
            assert(all[m] == c.required[m] && all[r + k] == c.optional[k]);
        }
    }
    assert forall|k: int| 0 <= k < c.kwargs.len() implies !bound(b, (#[trigger] c.kwargs[k]).name) by {
        if bound(b, c.kwargs[k].name) {
            let m = choose|m: int| 0 <= m < b.len() && (#[trigger] b[m]).0 == c.kwargs[k].name;
            assert(all[m] == c.required[m] && all[r + o + k] == c.kwargs[k]);
        }
    }
    lemma_omitted_take_defaults(c, b);
    lemma_scan_required(c, toks, low, keys, pos, vals, 0);
    assert(b.subrange(0, 0) =~= Seq::<(Seq<char>, Val)>::empty());
}

proof fn lemma_find_text(keys: Seq<Seq<char>>, x: Seq<char>, i: int)
    requires
        0 <= i <= keys.len(),
    ensures
        i <= find_text(keys, x, i) <= keys.len(),
        find_text(keys, x, i) < keys.len() ==> keys[find_text(keys, x, i)] == x,
        forall|j: int| i <= j < find_text(keys, x, i) ==> #[trigger] keys[j] != x,
    decreases keys.len() - i,
{
    if i < keys.len() {
        lemma_find_text(keys, x, i + 1);
    }
}

proof fn lemma_fill_ok(args: Seq<ArgModel>, res: Seq<(Seq<char>, Val)>, k: int)
    requires
        0 <= k <= args.len(),
        unique_keys(res),
        forall|j: int|
            k <= j < args.len() ==> bound(res, (#[trigger] args[j]).name) || args[j].default is Some,
    ensures
        fill(args, res, k) is Ok,
        unique_keys(fill(args, res, k)->Ok_0),
        forall|x: Seq<char>| bound(res, x) ==> bound(fill(args, res, k)->Ok_0, x),
    decreases args.len() - k,
{
    if k < args.len() {
        let a = args[k];
        lemma_has_key(res, a.name);
        if has_key(res, a.name) {
            lemma_fill_ok(args, res, k + 1);
        } else {
            let d = a.default->Some_0;
            let next = put(res, a.name, d);
            lemma_put(res, a.name, d);
            lemma_fill_ok(args, next, k + 1);
        }
    }
}

proof fn lemma_scan_named(
    c: CommandModel,
    toks: Seq<Seq<char>>,
    low: Seq<Seq<char>>,
    keys: Seq<Seq<char>>,
    kpos: Seq<int>,
    kidx: Seq<int>,
    kvals: Seq<Val>,
    g: int,
    opt: int,
    open: bool,
    res: Seq<(Seq<char>, Val)>,
)
    requires
        0 <= g <= kidx.len(),
        kpos.len() == kidx.len() + 1,
        kvals.len() == kidx.len(),
        kpos[kidx.len() as int] == toks.len(),
        keys.len() == c.kwargs.len(),
        forall|i: int, j: int|
            0 <= i < keys.len() && 0 <= j < keys.len() && i != j ==> #[trigger] keys[i] != #[trigger] keys[j],
        unique_keys(res),
        forall|k: int| 0 <= k < c.required.len() ==> bound(res, (#[trigger] c.required[k]).name),
        forall|k: int| 0 <= k < c.optional.len() ==> (#[trigger] c.optional[k]).default is Some,
        forall|m: int|
            0 <= m < kidx.len() ==> 0 <= #[trigger] kidx[m] < c.kwargs.len() && 0 <= kpos[m] && kpos[m]
                + 1 < toks.len() && low[kpos[m]] == keys[kidx[m]],
        forall|m: int|
            0 <= m < kidx.len() ==> #[trigger] read_arg(c.kwargs[kidx[m]], toks, kpos[m] + 1) == Ok::<
                (Val, int),
                Fault,
            >((kvals[m], kpos[m + 1])),
        forall|w: int|
            0 <= w < c.kwargs.len() && (#[trigger] c.kwargs[w]).default is None ==> bound(
                res,
                c.kwargs[w].name,
            ) || exists|m: int| g <= m < kidx.len() && #[trigger] kidx[m] == w,
    ensures
        scan(c, toks, low, keys, kpos[g], c.required.len() as int, opt, open, res) is Ok,
    decreases kidx.len() - g,
{
    let r = c.required.len() as int;
    if g == kidx.len() {
        lemma_fill_present(c.required, res, 0);
        lemma_fill_ok(c.optional, res, 0);
        let r2 = fill(c.optional, res, 0)->Ok_0;
        assert forall|j: int| 0 <= j < c.kwargs.len() implies bound(r2, (#[trigger] c.kwargs[j]).name)
            || c.kwargs[j].default is Some by {
            if c.kwargs[j].default is None {
                assert(bound(res, c.kwargs[j].name));
            }
        }
        lemma_fill_ok(c.kwargs, r2, 0);
    } else {
        let i = kpos[g];
        let w = kidx[g];
        let a = c.kwargs[w];
        lemma_find_text(keys, low[i], 0);
        let k = find_text(keys, low[i], 0);
        if k < w {
            assert(keys[k] == keys[w]);
        }
        assert(k == w);
        assert(read_arg(c.kwargs[kidx[g]], toks, kpos[g] + 1) == Ok::<(Val, int), Fault>(
            (kvals[g], kpos[g + 1]),
        ));
        let next = put(res, a.name, kvals[g]);
        lemma_put(res, a.name, kvals[g]);
        assert forall|v: int|
            0 <= v < c.kwargs.len() && (#[trigger] c.kwargs[v]).default is None implies bound(
            next,
            c.kwargs[v].name,
        ) || exists|m: int| g + 1 <= m < kidx.len() && #[trigger] kidx[m] == v by {
            if !bound(res, c.kwargs[v].name) {
                let m = choose|m: int| g <= m < kidx.len() && #[trigger] kidx[m] == v;
                if m == g {
                    assert(bound(next, c.kwargs[v].name));
                } else {
                    assert(g + 1 <= m < kidx.len() && kidx[m] == v);
                }
            }
        }
        lemma_scan_named(c, toks, low, keys, kpos, kidx, kvals, g + 1, opt, false, next);
    }
}

proof fn lemma_scan_optional(
    c: CommandModel,
    toks: Seq<Seq<char>>,
    low: Seq<Seq<char>>,
    keys: Seq<Seq<char>>,
    opos: Seq<int>,
    ovals: Seq<Val>,
    kpos: Seq<int>,
    kidx: Seq<int>,
    kvals: Seq<Val>,
    m: int,
    res: Seq<(Seq<char>, Val)>,
)
    requires
        0 <= m <= ovals.len(),
        ovals.len() <= c.optional.len(),
        opos.len() == ovals.len() + 1,
        opos[ovals.len() as int] == kpos[0],
        forall|q: int|
            0 <= q < ovals.len() ==> 0 <= #[trigger] opos[q] < toks.len() && find_text(
                keys,
                low[opos[q]],
                0,
            ) == keys.len(),
        forall|q: int|
            0 <= q < ovals.len() ==> #[trigger] read_arg(c.optional[q], toks, opos[q]) == Ok::<
                (Val, int),
                Fault,
            >((ovals[q], opos[q + 1])),
        kpos.len() == kidx.len() + 1,
        kvals.len() == kidx.len(),
        kpos[kidx.len() as int] == toks.len(),
        keys.len() == c.kwargs.len(),
        forall|i: int, j: int|
            0 <= i < keys.len() && 0 <= j < keys.len() && i != j ==> #[trigger] keys[i] != #[trigger] keys[j],
        unique_keys(res),
        forall|k: int| 0 <= k < c.required.len() ==> bound(res, (#[trigger] c.required[k]).name),
        forall|k: int| 0 <= k < c.optional.len() ==> (#[trigger] c.optional[k]).default is Some,
        forall|q: int|
            0 <= q < kidx.len() ==> 0 <= #[trigger] kidx[q] < c.kwargs.len() && 0 <= kpos[q] && kpos[q]
                + 1 < toks.len() && low[kpos[q]] == keys[kidx[q]],
        forall|q: int|
            0 <= q < kidx.len() ==> #[trigger] read_arg(c.kwargs[kidx[q]], toks, kpos[q] + 1) == Ok::<
                (Val, int),
                Fault,
            >((kvals[q], kpos[q + 1])),
        forall|w: int|
            0 <= w < c.kwargs.len() && (#[trigger] c.kwargs[w]).default is None ==> exists|q: int|
                0 <= q < kidx.len() && #[trigger] kidx[q] == w,
    ensures
        scan(c, toks, low, keys, opos[m], c.required.len() as int, m, true, res) is Ok,
    decreases ovals.len() - m,
{
    if m == ovals.len() {
        lemma_scan_named(c, toks, low, keys, kpos, kidx, kvals, 0, m, true, res);
    } else {
        let i = opos[m];
        let a = c.optional[m];
        assert(read_arg(c.optional[m], toks, opos[m]) == Ok::<(Val, int), Fault>(
            (ovals[m], opos[m + 1]),
        ));
        let next = put(res, a.name, ovals[m]);
        lemma_put(res, a.name, ovals[m]);
        lemma_scan_optional(c, toks, low, keys, opos, ovals, kpos, kidx, kvals, m + 1, next);
    }
}

/// A line that names the command, gives each required positional in order a
/// value that reads in full, then values for the first optional positionals
/// (none of them a keyword), and then named arguments as keyword and value
/// pairs up to the end of the line, parses, where the schema's names
/// are distinct, its optional positionals have defaults, and each named
/// argument without a default is among those given. The result binds every
/// declared name exactly once.
pub proof fn lemma_valid_line_parses(
    c: CommandModel,
    toks: Seq<Seq<char>>,
    low: Seq<Seq<char>>,
    pos: Seq<int>,
    vals: Seq<Val>,
    opos: Seq<int>,
    ovals: Seq<Val>,
    kpos: Seq<int>,
    kidx: Seq<int>,
    kvals: Seq<Val>,
)
    requires
        toks.len() >= 1,
        low.len() == toks.len(),
        low[0] == lower_of(c.name),
        distinct_names(c.required + c.optional + c.kwargs),
        forall|i: int, j: int|
            0 <= i < c.kwargs.len() && 0 <= j < c.kwargs.len() && i != j ==> lower_of(
                (#[trigger] c.kwargs[i]).name,
            ) != lower_of((#[trigger] c.kwargs[j]).name),
        forall|k: int| 0 <= k < c.optional.len() ==> (#[trigger] c.optional[k]).default is Some,
        pos.len() == c.required.len() + 1,
        vals.len() == c.required.len(),
        pos[0] == 1,
        forall|m: int| 0 <= m < c.required.len() ==> 0 <= #[trigger] pos[m] < toks.len(),
        forall|m: int|
            0 <= m < c.required.len() ==> #[trigger] read_arg(c.required[m], toks, pos[m]) == Ok::<
                (Val, int),
                Fault,
            >((vals[m], pos[m + 1])),
        opos.len() == ovals.len() + 1,
        ovals.len() <= c.optional.len(),
        opos[0] == pos[c.required.len() as int],
        forall|q: int|
            0 <= q < ovals.len() ==> 0 <= #[trigger] opos[q] < toks.len() && forall|w: int|
                0 <= w < c.kwargs.len() ==> lower_of((#[trigger] c.kwargs[w]).name) != low[opos[q]],
        forall|q: int|
            0 <= q < ovals.len() ==> #[trigger] read_arg(c.optional[q], toks, opos[q]) == Ok::<
                (Val, int),
                Fault,
            >((ovals[q], opos[q + 1])),
        kpos.len() == kidx.len() + 1,
        kvals.len() == kidx.len(),
        kpos[0] == opos[ovals.len() as int],
        kpos[kidx.len() as int] == toks.len(),
        forall|m: int|
            0 <= m < kidx.len() ==> 0 <= #[trigger] kidx[m] < c.kwargs.len() && 0 <= kpos[m] && kpos[m]
                + 1 < toks.len() && low[kpos[m]] == lower_of(c.kwargs[kidx[m]].name),
        forall|m: int|
            0 <= m < kidx.len() ==> #[trigger] read_arg(c.kwargs[kidx[m]], toks, kpos[m] + 1) == Ok::<
                (Val, int),
                Fault,
            >((kvals[m], kpos[m + 1])),
        forall|w: int|
            0 <= w < c.kwargs.len() && (#[trigger] c.kwargs[w]).default is None ==> exists|m: int|
                0 <= m < kidx.len() && #[trigger] kidx[m] == w,
    ensures
        parse_spec(c, toks, low) is Ok,
        unique_keys(parse_spec(c, toks, low)->Ok_0),
        forall|x: Seq<char>| has_key(parse_spec(c, toks, low)->Ok_0, x) <==> declared(c, x),
{
    let keys = folded_keys(c.kwargs);
    assert forall|i: int, j: int|
        0 <= i < keys.len() && 0 <= j < keys.len() && i != j implies #[trigger] keys[i]
        != #[trigger] keys[j] by {
        assert(keys[i] == lower_of(c.kwargs[i].name) && keys[j] == lower_of(c.kwargs[j].name));
    }
    assert forall|m: int| 0 <= m < kidx.len() implies low[kpos[m]] == keys[#[trigger] kidx[m]] by {
        assert(keys[kidx[m]] == lower_of(c.kwargs[kidx[m]].name));
    }
    let all = c.required + c.optional + c.kwargs;
    let r = c.required.len() as int;
    let o = c.optional.len() as int;
    let b = bind_all(c.required, vals);
    assert forall|i: int, j: int| 0 <= i < r && 0 <= j < r && i != j implies (
    #[trigger] c.required[i]).name != (#[trigger] c.required[j]).name by {
        assert(all[i] == c.required[i] && all[j] == c.required[j]);
    }
    assert forall|i: int, j: int|
        0 <= i < c.kwargs.len() && 0 <= j < c.kwargs.len() && i != j implies (
        #[trigger] c.kwargs[i]).name != (#[trigger] c.kwargs[j]).name by {
        assert(all[r + o + i] == c.kwargs[i] && all[r + o + j] == c.kwargs[j]);
    }
    assert forall|i: int, j: int|
        0 <= i < b.len() && 0 <= j < b.len() && i != j implies (#[trigger] b[i]).0 != (
        #[trigger] b[j]).0 by {
        assert(b[i].0 == c.required[i].name && b[j].0 == c.required[j].name);
    }
    assert forall|k: int| 0 <= k < r implies bound(b, (#[trigger] c.required[k]).name) by {
        assert(b[k].0 == c.required[k].name);
    }
    lemma_scan_required(c, toks, low, keys, pos, vals, 0);
    assert(b.subrange(0, 0) =~= Seq::<(Seq<char>, Val)>::empty());
    assert forall|q: int| 0 <= q < ovals.len() implies 0 <= #[trigger] opos[q] < toks.len() && find_text(
        keys,
        low[opos[q]],
        0,
    ) == keys.len() by {
        lemma_find_text(keys, low[opos[q]], 0);
        let f = find_text(keys, low[opos[q]], 0);
        if f < keys.len() {
            assert(keys[f] == lower_of(c.kwargs[f].name));
        }
    }
    lemma_scan_optional(c, toks, low, keys, opos, ovals, kpos, kidx, kvals, 0, b);
    lemma_parse_binds_each_name_once(c, toks, low);
}

/// Each entry of `res` has the kind of every declaration of `c` that bears its name.
pub open spec fn entries_fit(c: CommandModel, res: Seq<(Seq<char>, Val)>) -> bool {
    forall|i: int, j: int|
        0 <= i < res.len() && 0 <= j < all_decls(c).len() && (#[trigger] all_decls(c)[j]).name == (
        #[trigger] res[i]).0 ==> fits(all_decls(c)[j], res[i].1)
}

proof fn lemma_read_elems_fit(
    ty: ScalarType,
    toks: Seq<Seq<char>>,
    start: int,
    k: int,
    n: int,
    acc: Seq<Val>,
)
    requires
        forall|i: int| 0 <= i < acc.len() ==> scalar_fits(ty, #[trigger] acc[i]),
        read_elems(ty, toks, start, k, n, acc) is Ok,
    ensures
        forall|i: int|
            0 <= i < read_elems(ty, toks, start, k, n, acc)->Ok_0.len() ==> scalar_fits(
                ty,
                #[trigger] read_elems(ty, toks, start, k, n, acc)->Ok_0[i],
            ),
    decreases n - k,
{
    if k < n && start + k < toks.len() {
        if let Some(v) = scalar_of(ty, toks[start + k]) {
            let next = acc.push(v);
            assert forall|i: int| 0 <= i < next.len() implies scalar_fits(ty, #[trigger] next[i]) by {
                if i < acc.len() {
                    assert(next[i] == acc[i]);
                }
            }
            lemma_read_elems_fit(ty, toks, start, k + 1, n, next);
        }
    }
}

proof fn lemma_read_arg_fits(a: ArgModel, toks: Seq<Seq<char>>, i: int)
    ensures
        read_arg(a, toks, i) matches Ok((v, j)) ==> fits(a, v),
{
    if a.kind == Collection::Vec {
        if let Some(n) = unsigned_of(toks[i]) {
            if read_elems(a.ty, toks, i + 1, 0, n as int, Seq::empty()) is Ok {
                lemma_read_elems_fit(a.ty, toks, i + 1, 0, n as int, Seq::empty());
            }
        }
    }
}

proof fn lemma_put_fits(c: CommandModel, res: Seq<(Seq<char>, Val)>, p: int, v: Val)
    requires
        entries_fit(c, res),
        distinct_names(all_decls(c)),
        0 <= p < all_decls(c).len(),
        fits(all_decls(c)[p], v),
    ensures
        entries_fit(c, put(res, all_decls(c)[p].name, v)),
{
    let all = all_decls(c);
    let a = all[p];
    lemma_find_key(res, a.name, 0);
    let k = find_key(res, a.name, 0);
    let r = put(res, a.name, v);
    assert forall|i: int, j: int|
        0 <= i < r.len() && 0 <= j < all.len() && (#[trigger] all[j]).name == (#[trigger] r[i]).0 implies fits(
        all[j],
        r[i].1,
    ) by {
        if (k < res.len() && i == k) || (k == res.len() && i == res.len()) {
            assert(r[i] == (a.name, v));
            if j != p {
                assert(all[j].name != all[p].name);
            }
        } else {
            assert(r[i] == res[i]);
        }
    }
}

proof fn lemma_group_in_all(c: CommandModel)
    ensures
        forall|j: int| 0 <= j < c.required.len() ==> all_decls(c)[j] == #[trigger] c.required[j],
        forall|j: int|
            0 <= j < c.optional.len() ==> all_decls(c)[c.required.len() + j] == #[trigger] c.optional[j],
        forall|j: int|
            0 <= j < c.kwargs.len() ==> all_decls(c)[c.required.len() + c.optional.len() + j]
                == #[trigger] c.kwargs[j],
        all_decls(c).len() == c.required.len() + c.optional.len() + c.kwargs.len(),
{
}

proof fn lemma_fill_fits(
    c: CommandModel,
    args: Seq<ArgModel>,
    off: int,
    res: Seq<(Seq<char>, Val)>,
    k: int,
)
    requires
        schema_sound(c),
        0 <= off,
        off + args.len() <= all_decls(c).len(),
        forall|j: int| 0 <= j < args.len() ==> all_decls(c)[off + j] == #[trigger] args[j],
        0 <= k <= args.len(),
        entries_fit(c, res),
        fill(args, res, k) is Ok,
    ensures
        entries_fit(c, fill(args, res, k)->Ok_0),
    decreases args.len() - k,
{
    if k < args.len() {
        if has_key(res, args[k].name) {
            lemma_fill_fits(c, args, off, res, k + 1);
        } else {
            let d = args[k].default->Some_0;
            assert(all_decls(c)[off + k] == args[k]);
            lemma_put_fits(c, res, off + k, d);
            lemma_fill_fits(c, args, off, put(res, args[k].name, d), k + 1);
        }
    }
}

proof fn lemma_scan_fits(
    c: CommandModel,
    toks: Seq<Seq<char>>,
    low: Seq<Seq<char>>,
    keys: Seq<Seq<char>>,
    i: int,
    req: int,
    opt: int,
    open: bool,
    res: Seq<(Seq<char>, Val)>,
)
    requires
        schema_sound(c),
        entries_fit(c, res),
        scan(c, toks, low, keys, i, req, opt, open, res) is Ok,
    ensures
        entries_fit(c, scan(c, toks, low, keys, i, req, opt, open, res)->Ok_0),
    decreases toks.len() - i,
{
    lemma_group_in_all(c);
    let r = c.required.len() as int;
    let o = c.optional.len() as int;
    if i < 0 || i >= toks.len() {
        lemma_fill_fits(c, c.required, 0, res, 0);
        let r1 = fill(c.required, res, 0)->Ok_0;
        lemma_fill_fits(c, c.optional, r, r1, 0);
        let r2 = fill(c.optional, r1, 0)->Ok_0;
        lemma_fill_fits(c, c.kwargs, r + o, r2, 0);
    } else if 0 <= req < c.required.len() {
        let a = c.required[req];
        lemma_read_arg_advances(a, toks, i);
        lemma_read_arg_fits(a, toks, i);
        let (v, j) = read_arg(a, toks, i)->Ok_0;
        lemma_put_fits(c, res, req, v);
        lemma_scan_fits(c, toks, low, keys, j, req + 1, opt, open, put(res, a.name, v));
    } else {
        let k = find_text(keys, low[i], 0);
        if 0 <= k < keys.len() && k < c.kwargs.len() {
            let a = c.kwargs[k];
            lemma_read_arg_advances(a, toks, i + 1);
            lemma_read_arg_fits(a, toks, i + 1);
            let (v, j) = read_arg(a, toks, i + 1)->Ok_0;
            lemma_put_fits(c, res, r + o + k, v);
            lemma_scan_fits(c, toks, low, keys, j, req, opt, false, put(res, a.name, v));
        } else {
            let a = c.optional[opt];
            lemma_read_arg_advances(a, toks, i);
            lemma_read_arg_fits(a, toks, i);
            let (v, j) = read_arg(a, toks, i)->Ok_0;
            lemma_put_fits(c, res, r + opt, v);
            lemma_scan_fits(c, toks, low, keys, j, req, opt + 1, open, put(res, a.name, v));
        }
    }
}

/// On a sound schema, each value that a successful parse binds has the kind
/// that the declaration of its name declares: one scalar of its type, or a
/// sequence of scalars of its type, a float always in decimal float notation.
pub proof fn lemma_bound_values_fit(c: CommandModel, toks: Seq<Seq<char>>, low: Seq<Seq<char>>)
    requires
        schema_sound(c),
        parse_spec(c, toks, low) is Ok,
    ensures
        entries_fit(c, parse_spec(c, toks, low)->Ok_0),
{
    let keys = folded_keys(c.kwargs);
    lemma_scan_fits(c, toks, low, keys, 1, 0, 0, true, Seq::empty());
}

/// `a` and `b` bind the same names in the same order, and the same values
/// but perhaps at entry `p`.
pub open spec fn same_but(a: Seq<(Seq<char>, Val)>, b: Seq<(Seq<char>, Val)>, p: int) -> bool {
    &&& a.len() == b.len()
    &&& forall|i: int| 0 <= i < a.len() ==> (#[trigger] a[i]).0 == b[i].0
    &&& forall|i: int| 0 <= i < a.len() && i != p ==> (#[trigger] a[i]).1 == b[i].1
}

/// Two outcomes fail with the same error, or succeed alike but perhaps at entry `p`.
pub open spec fn outcomes_agree(
    s1: Result<Seq<(Seq<char>, Val)>, Fault>,
    s2: Result<Seq<(Seq<char>, Val)>, Fault>,
    p: int,
) -> bool {
    match s1 {
        Err(e) => s2 == Err::<Seq<(Seq<char>, Val)>, Fault>(e),
        Ok(a) => s2 matches Ok(b) && same_but(a, b, p),
    }
}

proof fn lemma_find_key_same(a: Seq<(Seq<char>, Val)>, b: Seq<(Seq<char>, Val)>, x: Seq<char>, i: int)
    requires
        a.len() == b.len(),
        forall|j: int| 0 <= j < a.len() ==> (#[trigger] a[j]).0 == b[j].0,
    ensures
        find_key(a, x, i) == find_key(b, x, i),
    decreases a.len() - i,
{
    if 0 <= i < a.len() {
        lemma_find_key_same(a, b, x, i + 1);
    }
}

proof fn lemma_put_same(a: Seq<(Seq<char>, Val)>, b: Seq<(Seq<char>, Val)>, p: int, x: Seq<char>, v: Val)
    requires
        same_but(a, b, p),
    ensures
        same_but(put(a, x, v), put(b, x, v), p),
{
    lemma_find_key_same(a, b, x, 0);
    lemma_find_key(a, x, 0);
    let kk = find_key(a, x, 0);
    let ra = put(a, x, v);
    let rb = put(b, x, v);
    assert(ra.len() == rb.len());
    assert forall|i: int| 0 <= i < ra.len() implies (#[trigger] ra[i]).0 == rb[i].0 by {
        if i == kk || i == a.len() {
            assert(ra[i] == (x, v) && rb[i] == (x, v));
        } else {
            assert(ra[i] == a[i] && rb[i] == b[i]);
        }
    }
    assert forall|i: int| 0 <= i < ra.len() && i != p implies (#[trigger] ra[i]).1 == rb[i].1 by {
        if i == kk || i == a.len() {
            assert(ra[i] == (x, v) && rb[i] == (x, v));
        } else {
            assert(ra[i] == a[i] && rb[i] == b[i]);
        }
    }
}

proof fn lemma_fill_same(args: Seq<ArgModel>, a: Seq<(Seq<char>, Val)>, b: Seq<(Seq<char>, Val)>, p: int, k: int)
    requires
        same_but(a, b, p),
    ensures
        outcomes_agree(fill(args, a, k), fill(args, b, k), p),
    decreases args.len() - k,
{
    if 0 <= k < args.len() {
        lemma_find_key_same(a, b, args[k].name, 0);
        if has_key(a, args[k].name) {
            lemma_fill_same(args, a, b, p, k + 1);
        } else if let Some(d) = args[k].default {
            lemma_put_same(a, b, p, args[k].name, d);
            lemma_fill_same(args, put(a, args[k].name, d), put(b, args[k].name, d), p, k + 1);
        }
    }
}

proof fn lemma_read_elems_same(
    ty: ScalarType,
    t1: Seq<Seq<char>>,
    t2: Seq<Seq<char>>,
    start: int,
    k: int,
    n: int,
    acc: Seq<Val>,
)
    requires
        t1.len() == t2.len(),
        0 <= k,
        forall|j: int| start <= j < t1.len() ==> #[trigger] t1[j] == t2[j],
    ensures
        read_elems(ty, t1, start, k, n, acc) == read_elems(ty, t2, start, k, n, acc),
    decreases n - k,
{
    if k < n && start + k < t1.len() {
        assert(t1[start + k] == t2[start + k]);
        if let Some(v) = scalar_of(ty, t1[start + k]) {
            lemma_read_elems_same(ty, t1, t2, start, k + 1, n, acc.push(v));
        }
    }
}

proof fn lemma_scan_same(
    c: CommandModel,
    t1: Seq<Seq<char>>,
    l1: Seq<Seq<char>>,
    t2: Seq<Seq<char>>,
    l2: Seq<Seq<char>>,
    keys: Seq<Seq<char>>,
    i: int,
    req: int,
    opt: int,
    open: bool,
    a: Seq<(Seq<char>, Val)>,
    b: Seq<(Seq<char>, Val)>,
    p: int,
)
    requires
        0 <= i,
        t1.len() == t2.len(),
        forall|j: int| i <= j < t1.len() ==> #[trigger] t1[j] == t2[j],
        forall|j: int| i <= j < t1.len() ==> #[trigger] l1[j] == l2[j],
        same_but(a, b, p),
    ensures
        outcomes_agree(
            scan(c, t1, l1, keys, i, req, opt, open, a),
            scan(c, t2, l2, keys, i, req, opt, open, b),
            p,
        ),
    decreases t1.len() - i,
{
    if i >= t1.len() {
        lemma_fill_same(c.required, a, b, p, 0);
        if let Ok(r1) = fill(c.required, a, 0) {
            let r2 = fill(c.required, b, 0)->Ok_0;
            lemma_fill_same(c.optional, r1, r2, p, 0);
            if let Ok(q1) = fill(c.optional, r1, 0) {
                let q2 = fill(c.optional, r2, 0)->Ok_0;
                lemma_fill_same(c.kwargs, q1, q2, p, 0);
            }
        }
    } else {
        assert(t1[i] == t2[i] && l1[i] == l2[i]);
        if 0 <= req < c.required.len() {
            let arg = c.required[req];
            lemma_read_arg_same(arg, t1, t2, i);
            lemma_read_arg_advances(arg, t1, i);
            if let Ok((v, j)) = read_arg(arg, t1, i) {
                lemma_put_same(a, b, p, arg.name, v);
                lemma_scan_same(c, t1, l1, t2, l2, keys, j, req + 1, opt, open, put(a, arg.name, v), put(b, arg.name, v), p);
            }
        } else {
            let k = find_text(keys, l1[i], 0);
            if 0 <= k < keys.len() && k < c.kwargs.len() {
                let arg = c.kwargs[k];
                if i + 1 < t1.len() {
                    lemma_read_arg_same(arg, t1, t2, i + 1);
                    lemma_read_arg_advances(arg, t1, i + 1);
                    if let Ok((v, j)) = read_arg(arg, t1, i + 1) {
                        lemma_put_same(a, b, p, arg.name, v);
                        lemma_scan_same(c, t1, l1, t2, l2, keys, j, req, opt, false, put(a, arg.name, v), put(b, arg.name, v), p);
                    }
                }
            } else if open && 0 <= opt < c.optional.len() {
                let arg = c.optional[opt];
                lemma_read_arg_same(arg, t1, t2, i);
                lemma_read_arg_advances(arg, t1, i);
                if let Ok((v, j)) = read_arg(arg, t1, i) {
                    lemma_put_same(a, b, p, arg.name, v);
                    lemma_scan_same(c, t1, l1, t2, l2, keys, j, req, opt + 1, open, put(a, arg.name, v), put(b, arg.name, v), p);
                }
            }
        }
    }
}

proof fn lemma_read_arg_same(arg: ArgModel, t1: Seq<Seq<char>>, t2: Seq<Seq<char>>, i: int)
    requires
        0 <= i < t1.len(),
        t1.len() == t2.len(),
        forall|j: int| i <= j < t1.len() ==> #[trigger] t1[j] == t2[j],
    ensures
        read_arg(arg, t1, i) == read_arg(arg, t2, i),
{
    assert(t1[i] == t2[i]);
    if let Some(n) = unsigned_of(t1[i]) {
        lemma_read_elems_same(arg.ty, t1, t2, i + 1, 0, n as int, Seq::empty());
    }
}

proof fn lemma_put_keeps_first(res: Seq<(Seq<char>, Val)>, x: Seq<char>, v: Val)
    requires
        res.len() > 0,
        x != res[0].0,
    ensures
        put(res, x, v).len() > 0,
        put(res, x, v)[0] == res[0],
{
    lemma_find_key(res, x, 0);
}

proof fn lemma_fill_keeps_first(args: Seq<ArgModel>, res: Seq<(Seq<char>, Val)>, k: int)
    requires
        res.len() > 0,
        fill(args, res, k) is Ok,
    ensures
        fill(args, res, k)->Ok_0.len() > 0,
        fill(args, res, k)->Ok_0[0] == res[0],
    decreases args.len() - k,
{
    if 0 <= k < args.len() {
        lemma_has_key(res, args[k].name);
        if has_key(res, args[k].name) {
            lemma_fill_keeps_first(args, res, k + 1);
        } else {
            let d = args[k].default->Some_0;
            assert(args[k].name != res[0].0);
            lemma_put_keeps_first(res, args[k].name, d);
            lemma_fill_keeps_first(args, put(res, args[k].name, d), k + 1);
        }
    }
}

proof fn lemma_first_entry_kept(
    c: CommandModel,
    toks: Seq<Seq<char>>,
    low: Seq<Seq<char>>,
    keys: Seq<Seq<char>>,
    i: int,
    req: int,
    opt: int,
    open: bool,
    res: Seq<(Seq<char>, Val)>,
)
    requires
        distinct_names(all_decls(c)),
        c.required.len() > 0,
        res.len() > 0,
        res[0].0 == c.required[0].name,
        req >= 1,
        scan(c, toks, low, keys, i, req, opt, open, res) is Ok,
    ensures
        scan(c, toks, low, keys, i, req, opt, open, res)->Ok_0[0] == res[0],
    decreases toks.len() - i,
{
    lemma_group_in_all(c);
    let all = all_decls(c);
    let r = c.required.len() as int;
    let o = c.optional.len() as int;
    if i < 0 || i >= toks.len() {
        lemma_fill_keeps_first(c.required, res, 0);
        let r1 = fill(c.required, res, 0)->Ok_0;
        lemma_fill_keeps_first(c.optional, r1, 0);
        let r2 = fill(c.optional, r1, 0)->Ok_0;
        lemma_fill_keeps_first(c.kwargs, r2, 0);
    } else if 0 <= req < c.required.len() {
        let a = c.required[req];
        assert(all[req].name != all[0].name);
        lemma_read_arg_advances(a, toks, i);
        let (v, j) = read_arg(a, toks, i)->Ok_0;
        lemma_put_keeps_first(res, a.name, v);
        lemma_first_entry_kept(c, toks, low, keys, j, req + 1, opt, open, put(res, a.name, v));
    } else {
        let k = find_text(keys, low[i], 0);
        if 0 <= k < keys.len() && k < c.kwargs.len() {
            let a = c.kwargs[k];
            assert(all[r + o + k].name != all[0].name);
            lemma_read_arg_advances(a, toks, i + 1);
            let (v, j) = read_arg(a, toks, i + 1)->Ok_0;
            lemma_put_keeps_first(res, a.name, v);
            lemma_first_entry_kept(c, toks, low, keys, j, req, opt, false, put(res, a.name, v));
        } else {
            let a = c.optional[opt];
            assert(all[r + opt].name != all[0].name);
            lemma_read_arg_advances(a, toks, i);
            let (v, j) = read_arg(a, toks, i)->Ok_0;
            lemma_put_keeps_first(res, a.name, v);
            lemma_first_entry_kept(c, toks, low, keys, j, req, opt + 1, open, put(res, a.name, v));
        }
    }
}

/// The unfilled required slot takes precedence over keyword lookup: where
/// the first required positional is a text scalar, two lines that differ
/// only in the token after the command name (a keyword `k` in one, any
/// token `t` in the other) parse alike. Both fail with the same error, or
/// both bind the same names in the same order to the same values, but for
/// the first entry, which binds that positional to the token itself, the
/// keyword `k` included, where no two declarations share a name.
pub proof fn lemma_required_slot_wins(
    c: CommandModel,
    c0: Seq<char>,
    l0: Seq<char>,
    k: Seq<char>,
    lk: Seq<char>,
    t: Seq<char>,
    lt: Seq<char>,
    rest: Seq<Seq<char>>,
    lrest: Seq<Seq<char>>,
)
    requires
        c.required.len() > 0,
        c.required[0].kind == Collection::Unit,
        c.required[0].ty == ScalarType::Str,
        lrest.len() == rest.len(),
    ensures
        outcomes_agree(
            parse_spec(c, seq![c0, k] + rest, seq![l0, lk] + lrest),
            parse_spec(c, seq![c0, t] + rest, seq![l0, lt] + lrest),
            0,
        ),
        distinct_names(all_decls(c)) ==> (parse_spec(c, seq![c0, k] + rest, seq![l0, lk] + lrest) matches Ok(
            r,
        ) ==> r[0] == (c.required[0].name, Val::Str(k))),
{
    let t1 = seq![c0, k] + rest;
    let l1 = seq![l0, lk] + lrest;
    let t2 = seq![c0, t] + rest;
    let l2 = seq![l0, lt] + lrest;
    let keys = folded_keys(c.kwargs);
    let name = c.required[0].name;
    assert(t1[0] == c0 && t2[0] == c0 && l1[0] == l0 && l2[0] == l0);
    assert(t1[1] == k && t2[1] == t);
    let a = seq![(name, Val::Str(k))];
    let b = seq![(name, Val::Str(t))];
    assert(put(Seq::empty(), name, Val::Str(k)) =~= a);
    assert(put(Seq::empty(), name, Val::Str(t)) =~= b);
    assert forall|j: int| 2 <= j < t1.len() implies #[trigger] t1[j] == t2[j] by {
        assert(t1[j] == rest[j - 2] && t2[j] == rest[j - 2]);
    }
    assert forall|j: int| 2 <= j < t1.len() implies #[trigger] l1[j] == l2[j] by {
        assert(l1[j] == lrest[j - 2] && l2[j] == lrest[j - 2]);
    }
    lemma_scan_same(c, t1, l1, t2, l2, keys, 2, 1, 0, true, a, b, 0);
    if distinct_names(all_decls(c)) && parse_spec(c, t1, l1) is Ok {
        lemma_first_entry_kept(c, t1, l1, keys, 2, 1, 0, true, a);
    }
}

} // verus!
