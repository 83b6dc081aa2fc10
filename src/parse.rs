//! Resolution of a token line against a command schema.

use vstd::prelude::*;
use crate::numeric::{float_literal, is_float_literal, parse_integer, parse_unsigned_integer, signed_of, unsigned_of};
use crate::schema::{args_model, find_name, Arg, ArgModel, Collection, Command, CommandModel, ScalarType};
use crate::text::{lower_of, lowercase, same_text};
use crate::value::{scalars_model, CmdError, Fault, Scalar, Val, Value};

verus! {

/// The texts of a token line.
pub open spec fn tokens(v: Seq<String>) -> Seq<Seq<char>> {
    v.map_values(|s: String| s@)
}

/// The lower-case forms of the texts of a token line.
pub open spec fn lowered(v: Seq<String>) -> Seq<Seq<char>> {
    v.map_values(|s: String| lower_of(s@))
}

/// The value that token `tok` denotes as a scalar of type `ty`, if any.
pub open spec fn scalar_of(ty: ScalarType, tok: Seq<char>) -> Option<Val> {
    match ty {
        ScalarType::Str => Some(Val::Str(tok)),
        ScalarType::U64 => match unsigned_of(tok) {
            Some(v) => Some(Val::U64(v)),
            None => None,
        },
        ScalarType::I64 => match signed_of(tok) {
            Some(v) => Some(Val::I64(v)),
            None => None,
        },
        ScalarType::F64 => if is_float_literal(tok) {
            Some(Val::F64(tok))
        } else {
            None
        },
    }
}

/// Reads the elements `k..n` of a sequence whose first element is token
/// `start`, after the elements `acc` already read.
pub open spec fn read_elems(
    ty: ScalarType,
    toks: Seq<Seq<char>>,
    start: int,
    k: int,
    n: int,
    acc: Seq<Val>,
) -> Result<Seq<Val>, Fault>
    decreases n - k,
{
    if k >= n {
        Ok(acc)
    } else if start + k >= toks.len() {
        Err(Fault::Arity)
    } else {
        match scalar_of(ty, toks[start + k]) {
            None => Err(Fault::InvalidNumber(toks[start + k])),
            Some(v) => read_elems(ty, toks, start, k + 1, n, acc.push(v)),
        }
    }
}

/// Reads the value of `a` from token `i` on: the value and the index past it.
pub open spec fn read_arg(a: ArgModel, toks: Seq<Seq<char>>, i: int) -> Result<(Val, int), Fault> {
    match a.kind {
        Collection::Unit => match scalar_of(a.ty, toks[i]) {
            Some(v) => Ok((v, i + 1)),
            None => Err(Fault::InvalidNumber(toks[i])),
        },
        Collection::Vec => match unsigned_of(toks[i]) {
            None => Err(Fault::InvalidNumber(toks[i])),
            Some(n) => match read_elems(a.ty, toks, i + 1, 0, n as int, Seq::empty()) {
                Ok(s) => Ok((Val::List(s), i + 1 + n)),
                Err(f) => Err(f),
            },
        },
    }
}

/// Index of the first entry at or after `i` whose name is `name`, or `res.len()`.
pub open spec fn find_key(res: Seq<(Seq<char>, Val)>, name: Seq<char>, i: int) -> int
    decreases res.len() - i,
{
    if i < 0 || i >= res.len() {
        res.len() as int
    } else if res[i].0 == name {
        i
    } else {
        find_key(res, name, i + 1)
    }
}

pub open spec fn has_key(res: Seq<(Seq<char>, Val)>, name: Seq<char>) -> bool {
    find_key(res, name, 0) < res.len()
}

/// `res` with `name` bound to `v`: an entry of that name is replaced, or a
/// new one appended.
pub open spec fn put(res: Seq<(Seq<char>, Val)>, name: Seq<char>, v: Val) -> Seq<(Seq<char>, Val)> {
    let k = find_key(res, name, 0);
    if k < res.len() {
        res.update(k, (name, v))
    } else {
        res.push((name, v))
    }
}

/// Checks the declarations `args[k..]` against `res`: an absent one takes
/// its default, or fails as missing when it has none.
pub open spec fn fill(args: Seq<ArgModel>, res: Seq<(Seq<char>, Val)>, k: int) -> Result<
    Seq<(Seq<char>, Val)>,
    Fault,
>
    decreases args.len() - k,
{
    if k < 0 || k >= args.len() {
        Ok(res)
    } else if has_key(res, args[k].name) {
        fill(args, res, k + 1)
    } else {
        match args[k].default {
            None => Err(Fault::MissingRequired(args[k].name)),
            Some(d) => fill(args, put(res, args[k].name, d), k + 1),
        }
    }
}

/// The completeness check after the scan: required, then optional, then
/// named declarations.
pub open spec fn finish(c: CommandModel, res: Seq<(Seq<char>, Val)>) -> Result<
    Seq<(Seq<char>, Val)>,
    Fault,
> {
    match fill(c.required, res, 0) {
        Err(f) => Err(f),
        Ok(r1) => match fill(c.optional, r1, 0) {
            Err(f) => Err(f),
            Ok(r2) => fill(c.kwargs, r2, 0),
        },
    }
}

/// Index of the first text of `keys` at or after `i` equal to `x`, or `keys.len()`.
pub open spec fn find_text(keys: Seq<Seq<char>>, x: Seq<char>, i: int) -> int
    decreases keys.len() - i,
{
    if i < 0 || i >= keys.len() {
        keys.len() as int
    } else if keys[i] == x {
        i
    } else {
        find_text(keys, x, i + 1)
    }
}

/// The lower-case forms of the names of the declarations `args`.
pub open spec fn folded_keys(args: Seq<ArgModel>) -> Seq<Seq<char>> {
    args.map_values(|a: ArgModel| lower_of(a.name))
}

/// The scan from token `i` on, with `req` required and `opt` optional
/// positionals filled, `open` until a named argument is seen, and `res`
/// bound so far. A token is looked up as a keyword by its lower-case form
/// in `low` among `keys`, the lower-case forms of the named arguments' names.
pub open spec fn scan(
    c: CommandModel,
    toks: Seq<Seq<char>>,
    low: Seq<Seq<char>>,
    keys: Seq<Seq<char>>,
    i: int,
    req: int,
    opt: int,
    open: bool,
    res: Seq<(Seq<char>, Val)>,
) -> Result<Seq<(Seq<char>, Val)>, Fault>
    decreases toks.len() - i
    via scan_decreases
{
    if i < 0 || i >= toks.len() {
        finish(c, res)
    } else if 0 <= req < c.required.len() {
        let a = c.required[req];
        match read_arg(a, toks, i) {
            Err(f) => Err(f),
            Ok((v, j)) => scan(c, toks, low, keys, j, req + 1, opt, open, put(res, a.name, v)),
        }
    } else {
        let k = find_text(keys, low[i], 0);
        if 0 <= k < keys.len() && k < c.kwargs.len() {
            let a = c.kwargs[k];
            if i + 1 >= toks.len() {
                Err(Fault::Arity)
            } else {
                match read_arg(a, toks, i + 1) {
                    Err(f) => Err(f),
                    Ok((v, j)) => scan(c, toks, low, keys, j, req, opt, false, put(res, a.name, v)),
                }
            }
        } else if open && 0 <= opt < c.optional.len() {
            let a = c.optional[opt];
            match read_arg(a, toks, i) {
                Err(f) => Err(f),
                Ok((v, j)) => scan(c, toks, low, keys, j, req, opt + 1, open, put(res, a.name, v)),
            }
        } else {
            Err(Fault::UnexpectedArgument(toks[i]))
        }
    }
}

proof fn lemma_read_elems_bound(
    ty: ScalarType,
    toks: Seq<Seq<char>>,
    start: int,
    k: int,
    n: int,
    acc: Seq<Val>,
)
    requires
        read_elems(ty, toks, start, k, n, acc) is Ok,
        k < n,
    ensures
        start + n <= toks.len(),
    decreases n - k,
{
    if k + 1 < n {
        let v = scalar_of(ty, toks[start + k])->Some_0;
        lemma_read_elems_bound(ty, toks, start, k + 1, n, acc.push(v));
    }
}

/// A value read from token `i` on ends past `i` and within the line.
pub proof fn lemma_read_arg_advances(a: ArgModel, toks: Seq<Seq<char>>, i: int)
    requires
        0 <= i < toks.len(),
    ensures
        read_arg(a, toks, i) matches Ok((v, j)) ==> i < j <= toks.len(),
{
    if a.kind == Collection::Vec {
        if let Some(n) = unsigned_of(toks[i]) {
            let r = read_elems(a.ty, toks, i + 1, 0, n as int, Seq::empty());
            if r is Ok && 0 < n {
                lemma_read_elems_bound(a.ty, toks, i + 1, 0, n as int, Seq::empty());
            }
        }
    }
}

#[via_fn]
proof fn scan_decreases(
    c: CommandModel,
    toks: Seq<Seq<char>>,
    low: Seq<Seq<char>>,
    keys: Seq<Seq<char>>,
    i: int,
    req: int,
    opt: int,
    open: bool,
    res: Seq<(Seq<char>, Val)>,
) {
    if 0 <= i < toks.len() {
        if 0 <= req < c.required.len() {
            lemma_read_arg_advances(c.required[req], toks, i);
        } else {
            let k = find_text(keys, low[i], 0);
            if 0 <= k < keys.len() && k < c.kwargs.len() {
                if i + 1 < toks.len() {
                    lemma_read_arg_advances(c.kwargs[k], toks, i + 1);
                }
            } else if 0 <= opt < c.optional.len() {
                lemma_read_arg_advances(c.optional[opt], toks, i);
            }
        }
    }
}

/// What parsing the token line `toks`, whose lower-case forms are `low`,
/// against schema `c` gives, where `name` is the lower-case form of the
/// command name and `keys` those of the named arguments' names.
pub open spec fn parse_with(
    c: CommandModel,
    toks: Seq<Seq<char>>,
    low: Seq<Seq<char>>,
    name: Seq<char>,
    keys: Seq<Seq<char>>,
) -> Result<Seq<(Seq<char>, Val)>, Fault> {
    if toks.len() == 0 {
        Err(Fault::Arity)
    } else if low[0] != name {
        Err(Fault::NameMismatch(toks[0]))
    } else {
        scan(c, toks, low, keys, 1, 0, 0, true, Seq::empty())
    }
}

/// What parsing the token line `toks`, whose lower-case forms are `low`,
/// against schema `c` gives: the command name and the keywords are matched
/// by lower-case form on both sides.
pub open spec fn parse_spec(c: CommandModel, toks: Seq<Seq<char>>, low: Seq<Seq<char>>) -> Result<
    Seq<(Seq<char>, Val)>,
    Fault,
> {
    parse_with(c, toks, low, lower_of(c.name), folded_keys(c.kwargs))
}

/// The outcome `r` of an executable parse agrees with the outcome `s` of the model.
pub open spec fn agrees(r: Result<ParsedArgs, CmdError>, s: Result<Seq<(Seq<char>, Val)>, Fault>) -> bool {
    match s {
        Ok(m) => r matches Ok(p) && p@ == m,
        Err(f) => r matches Err(e) && e@ == f,
    }
}

/// The arguments resolved by a parse: one entry per argument name, in the
/// order in which the names were first bound.
#[derive(Debug)]
pub struct ParsedArgs {
    entries: Vec<(String, Value)>,
}

impl View for ParsedArgs {
    type V = Seq<(Seq<char>, Val)>;

    closed spec fn view(&self) -> Seq<(Seq<char>, Val)> {
        self.entries@.map_values(|e: (String, Value)| (e.0@, e.1@))
    }
}

impl ParsedArgs {
    /// No arguments.
    pub fn new() -> (r: ParsedArgs)
        ensures
            r@ == Seq::<(Seq<char>, Val)>::empty(),
    {
        let r = ParsedArgs { entries: Vec::new() };
        assert(r@ =~= Seq::<(Seq<char>, Val)>::empty());
        r
    }

    /// The number of arguments.
    pub fn len(&self) -> (r: usize)
        ensures
            r == self@.len(),
    {
        self.entries.len()
    }

    /// Index of the entry called `name`, or the number of entries.
    fn position(&self, name: &str) -> (r: usize)
        ensures
            r == find_key(self@, name@, 0),
    {
        let mut i: usize = 0;
        while i < self.entries.len()
            invariant
                i <= self.entries@.len(),
                find_key(self@, name@, 0) == find_key(self@, name@, i as int),
            decreases self.entries.len() - i,
        {
            if same_text(self.entries[i].0.as_str(), name) {
                return i;
            }
            i += 1;
        }
        i
    }

    /// The bound names, in the order of the entries.
    pub fn names(&self) -> (r: Vec<String>)
        ensures
            r@.len() == self@.len(),
            forall|i: int| 0 <= i < r@.len() ==> (#[trigger] r@[i])@ == self@[i].0,
    {
        let mut out: Vec<String> = Vec::new();
        let mut i: usize = 0;
        while i < self.entries.len()
            invariant
                i <= self.entries@.len(),
                out@.len() == i,
                forall|j: int| 0 <= j < i ==> (#[trigger] out@[j])@ == self@[j].0,
            decreases self.entries.len() - i,
        {
            out.push(self.entries[i].0.clone());
            i += 1;
        }
        out
    }

    /// Whether an argument called `name` is bound.
    pub fn contains_key(&self, name: &str) -> (r: bool)
        ensures
            r == has_key(self@, name@),
    {
        self.position(name) < self.entries.len()
    }

    /// Binds `name` to `v`, replacing an earlier binding of that name.
    pub fn insert(&mut self, name: &str, v: Value)
        ensures
            final(self)@ == put(old(self)@, name@, v@),
    {
        let ghost before = self@;
        let ghost vm = v@;
        let k = self.position(name);
        let key = name.to_owned();
        if k < self.entries.len() {
            self.entries.set(k, (key, v));
            assert(self@ =~= before.update(k as int, (name@, vm)));
        } else {
            self.entries.push((key, v));
            assert(self@ =~= before.push((name@, vm)));
        }
    }

    /// The value bound to `name`, if any.
    pub fn get(&self, name: &str) -> (r: Option<&Value>)
        ensures
            has_key(self@, name@) ==> (r matches Some(v) && v@ == self@[find_key(self@, name@, 0)].1),
            !has_key(self@, name@) ==> r is None,
    {
        let k = self.position(name);
        if k < self.entries.len() {
            Some(&self.entries[k].1)
        } else {
            None
        }
    }

    /// Takes out the value bound to `name`, if any.
    pub fn remove(&mut self, name: &str) -> (r: Option<Value>)
        ensures
            has_key(old(self)@, name@) ==> (r matches Some(v) && v@ == old(self)@[find_key(
                old(self)@,
                name@,
                0,
            )].1 && final(self)@ == old(self)@.remove(find_key(old(self)@, name@, 0))),
            !has_key(old(self)@, name@) ==> r is None && final(self)@ == old(self)@,
    {
        let ghost before = self@;
        let k = self.position(name);
        if k < self.entries.len() {
            let (_, v) = self.entries.remove(k);
            assert(self@ =~= before.remove(k as int));
            Some(v)
        } else {
            None
        }
    }
}

/// Reads token `tok` as a scalar of type `ty`.
fn read_scalar(ty: ScalarType, tok: &String) -> (r: Option<Scalar>)
    ensures
        match scalar_of(ty, tok@) {
            Some(v) => r matches Some(x) && x@ == v,
            None => r is None,
        },
{
    match ty {
        ScalarType::Str => Some(Scalar::Str(tok.clone())),
        ScalarType::U64 => match parse_unsigned_integer(tok.as_str()) {
            Ok(v) => Some(Scalar::U64(v)),
            Err(_) => None,
        },
        ScalarType::I64 => match parse_integer(tok.as_str()) {
            Ok(v) => Some(Scalar::I64(v)),
            Err(_) => None,
        },
        ScalarType::F64 => if float_literal(tok.as_str()) {
            Some(Scalar::F64(tok.clone()))
        } else {
            None
        },
    }
}

/// Index of the first text of `keys` equal to `x`, or the number of texts.
fn find_text_in(keys: &Vec<String>, x: &String) -> (r: usize)
    ensures
        r == find_text(tokens(keys@), x@, 0),
{
    let ghost t = tokens(keys@);
    let mut i: usize = 0;
    while i < keys.len()
        invariant
            i <= keys@.len(),
            t == tokens(keys@),
            t.len() == keys@.len(),
            find_text(t, x@, 0) == find_text(t, x@, i as int),
        decreases keys.len() - i,
    {
        assert(t[i as int] == keys@[i as int]@);
        if keys[i] == *x {
            return i;
        }
        i += 1;
    }
    i
}

/// Reads the value of `a` from token `i` of `raw` on.
fn read_value(a: &Arg, raw: &Vec<String>, i: usize) -> (r: Result<(Value, usize), CmdError>)
    requires
        i < raw@.len(),
    ensures
        match read_arg(a@, tokens(raw@), i as int) {
            Ok((v, j)) => r matches Ok((x, jj)) && x@ == v && jj == j,
            Err(f) => r matches Err(e) && e@ == f,
        },
{
    let ghost toks = tokens(raw@);
    let len = raw.len();
    assert(toks.len() == len);
    assert(toks[i as int] == raw@[i as int]@);
    match a.kind {
        Collection::Unit => match read_scalar(a.scalar_type, &raw[i]) {
            Some(x) => Ok((x.into_value(), i + 1)),
            None => Err(CmdError::InvalidNumber(raw[i].clone())),
        },
        Collection::Vec => {
            let n = match parse_unsigned_integer(raw[i].as_str()) {
                Ok(n) => n,
                Err(e) => return Err(e),
            };
            let start = i + 1;
            let mut out: Vec<Scalar> = Vec::new();
            let mut k: u64 = 0;
            assert(scalars_model(out@) =~= Seq::empty());
            while k < n
                invariant
                    a.kind == Collection::Vec,
                    unsigned_of(toks[i as int]) == Some(n),
                    start == i + 1,
                    i < raw@.len(),
                    toks == tokens(raw@),
                    len == raw@.len(),
                    toks.len() == len,
                    k <= n,
                    out@.len() == k,
                    start + k <= raw@.len(),
                    read_elems(a@.ty, toks, start as int, 0, n as int, Seq::empty()) == read_elems(
                        a@.ty,
                        toks,
                        start as int,
                        k as int,
                        n as int,
                        scalars_model(out@),
                    ),
                decreases n - k,
            {
                let pos: usize = start + k as usize;
                if pos >= len {
                    return Err(CmdError::Arity);
                }
                assert(toks[pos as int] == raw@[pos as int]@);
                match read_scalar(a.scalar_type, &raw[pos]) {
                    Some(x) => {
                        let ghost before = scalars_model(out@);
                        out.push(x);
                        assert(scalars_model(out@) =~= before.push(x@));
                    },
                    None => return Err(CmdError::InvalidNumber(raw[pos].clone())),
                }
                k += 1;
            }
            let r = Value::Vec(out);
            Ok((r, start + n as usize))
        },
    }
}

/// Checks each declaration of `args` against `res`, binding defaults.
fn fill_from(args: &Vec<Arg>, start: ParsedArgs) -> (r: Result<ParsedArgs, CmdError>)
    ensures
        agrees(r, fill(args_model(args@), start@, 0)),
{
    let ghost am = args_model(args@);
    let ghost goal = fill(am, start@, 0);
    assert(am.len() == args@.len());
    let mut res = start;
    let mut k: usize = 0;
    while k < args.len()
        invariant
            k <= args@.len(),
            am == args_model(args@),
            am.len() == args@.len(),
            goal == fill(args_model(args@), start@, 0),
            goal == fill(am, res@, k as int),
        decreases args.len() - k,
    {
        let a = &args[k];
        assert(am[k as int] == a@);
        if !res.contains_key(a.arg) {
            match &a.default {
                None => return Err(CmdError::MissingRequired(a.arg.to_owned())),
                Some(d) => {
                    let v = d.duplicate();
                    res.insert(a.arg, v);
                },
            }
        }
        k += 1;
    }
    Ok(res)
}

impl Command {
    /// Resolves a token line whose lower-case forms are given beside it,
    /// with `lowered_name` the lower-case form of the command name and
    /// `lowered_keys` those of the named arguments' names, in their order.
    pub fn parse_lowered(
        &self,
        raw: &Vec<String>,
        lowered_args: &Vec<String>,
        lowered_name: &String,
        lowered_keys: &Vec<String>,
    ) -> (r: Result<ParsedArgs, CmdError>)
        requires
            lowered_args@.len() == raw@.len(),
        ensures
            agrees(
                r,
                parse_with(
                    self@,
                    tokens(raw@),
                    tokens(lowered_args@),
                    lowered_name@,
                    tokens(lowered_keys@),
                ),
            ),
    {
        let ghost c = self@;
        let ghost toks = tokens(raw@);
        let ghost low = tokens(lowered_args@);
        let ghost keys = tokens(lowered_keys@);
        let n = raw.len();
        assert(toks.len() == n && low.len() == n);
        if n == 0 {
            return Err(CmdError::Arity);
        }
        assert(low[0] == lowered_args@[0]@);
        assert(toks[0] == raw@[0]@);
        if !(lowered_args[0] == *lowered_name) {
            return Err(CmdError::NameMismatch(raw[0].clone()));
        }
        let ghost goal = scan(c, toks, low, keys, 1, 0, 0, true, Seq::empty());
        let mut res = ParsedArgs::new();
        let mut i: usize = 1;
        let mut req: usize = 0;
        let mut opt: usize = 0;
        let mut open = true;
        while i < n
            invariant
                n == raw@.len(),
                n == lowered_args@.len(),
                1 <= i <= n,
                c == self@,
                toks == tokens(raw@),
                low == tokens(lowered_args@),
                toks.len() == n,
                low.len() == n,
                c.required.len() == self.required_args@.len(),
                c.optional.len() == self.optional_args@.len(),
                c.kwargs.len() == self.kwargs@.len(),
                req <= c.required.len(),
                opt <= c.optional.len(),
                goal == parse_with(c, toks, low, lowered_name@, keys),
                keys == tokens(lowered_keys@),
                keys.len() == lowered_keys@.len(),
                goal == scan(c, toks, low, keys, i as int, req as int, opt as int, open, res@),
            decreases n - i,
        {
            assert(toks[i as int] == raw@[i as int]@);
            assert(low[i as int] == lowered_args@[i as int]@);
            if req < self.required_args.len() {
                let a = &self.required_args[req];
                assert(c.required[req as int] == a@);
                proof {
                    lemma_read_arg_advances(a@, toks, i as int);
                }
                match read_value(a, raw, i) {
                    Err(e) => return Err(e),
                    Ok((v, j)) => {
                        res.insert(a.arg, v);
                        i = j;
                        req += 1;
                    },
                }
            } else {
                let k = find_text_in(lowered_keys, &lowered_args[i]);
                if k < lowered_keys.len() && k < self.kwargs.len() {
                    let a = &self.kwargs[k];
                    assert(c.kwargs[k as int] == a@);
                    if i + 1 >= n {
                        return Err(CmdError::Arity);
                    }
                    proof {
                        lemma_read_arg_advances(a@, toks, i + 1);
                    }
                    match read_value(a, raw, i + 1) {
                        Err(e) => return Err(e),
                        Ok((v, j)) => {
                            res.insert(a.arg, v);
                            i = j;
                            open = false;
                        },
                    }
                } else if open && opt < self.optional_args.len() {
                    let a = &self.optional_args[opt];
                    assert(c.optional[opt as int] == a@);
                    proof {
                        lemma_read_arg_advances(a@, toks, i as int);
                    }
                    match read_value(a, raw, i) {
                        Err(e) => return Err(e),
                        Ok((v, j)) => {
                            res.insert(a.arg, v);
                            i = j;
                            opt += 1;
                        },
                    }
                } else {
                    return Err(CmdError::UnexpectedArgument(raw[i].clone()));
                }
            }
        }
        match fill_from(&self.required_args, res) {
            Err(e) => Err(e),
            Ok(r1) => match fill_from(&self.optional_args, r1) {
                Err(e) => Err(e),
                Ok(r2) => fill_from(&self.kwargs, r2),
            },
        }
    }

    /// Resolves a token line: the first token names the command, the rest
    /// fill the declared arguments. The lower-case form of the first token
    /// must equal the command name, and that of a keyword token the name of
    /// a named argument. Every declared argument is bound in the result,
    /// given or defaulted; otherwise the first error is returned.
    pub fn parse_args(&self, raw_args: Vec<String>) -> (r: Result<ParsedArgs, CmdError>)
        ensures
            agrees(r, parse_spec(self@, tokens(raw_args@), lowered(raw_args@))),
    {
        let mut low: Vec<String> = Vec::new();
        let mut i: usize = 0;
        while i < raw_args.len()
            invariant
                i <= raw_args@.len(),
                low@.len() == i,
                forall|j: int| 0 <= j < i ==> (#[trigger] low@[j])@ == lower_of(raw_args@[j]@),
            decreases raw_args.len() - i,
        {
            low.push(lowercase(raw_args[i].as_str()));
            i += 1;
        }
        assert(tokens(low@) =~= lowered(raw_args@));
        let name = lowercase(self.name);
        let mut keys: Vec<String> = Vec::new();
        let mut k: usize = 0;
        while k < self.kwargs.len()
            invariant
                k <= self.kwargs@.len(),
                keys@.len() == k,
                forall|j: int|
                    0 <= j < k ==> (#[trigger] keys@[j])@ == lower_of(self.kwargs@[j].arg@),
            decreases self.kwargs.len() - k,
        {
            keys.push(lowercase(self.kwargs[k].arg));
            k += 1;
        }
        assert(tokens(keys@) =~= folded_keys(self@.kwargs));
        self.parse_lowered(&raw_args, &low, &name, &keys)
    }
}

} // verus!
