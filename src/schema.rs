//! Declarations of a command's arguments, and the command schema built from them.

use vstd::prelude::*;
use crate::numeric::is_float_literal;
use crate::text::{lower_of, same_text};
use crate::value::{Val, Value};

verus! {

/// Whether an argument is given by position or introduced by its name.
#[derive(PartialEq, Eq, Structural, Clone, Copy, Debug)]
pub enum ArgType {
    Arg,
    Kwarg,
}

/// Whether an argument takes one token or a length-prefixed run of tokens.
#[derive(PartialEq, Eq, Structural, Clone, Copy, Debug)]
pub enum Collection {
    Unit,
    Vec,
}

/// The declared scalar type of an argument, or of its elements.
#[derive(PartialEq, Eq, Structural, Clone, Copy, Debug)]
pub enum ScalarType {
    Str,
    U64,
    I64,
    F64,
}

/// The declaration of one argument.
#[derive(Debug)]
pub struct Arg {
    pub arg: &'static str,
    pub desc: &'static str,
    pub arg_type: ArgType,
    pub scalar_type: ScalarType,
    pub kind: Collection,
    pub default: Option<Value>,
}

/// Mathematical model of an [`Arg`]; the description plays no part in parsing.
pub struct ArgModel {
    pub name: Seq<char>,
    pub arg_type: ArgType,
    pub ty: ScalarType,
    pub kind: Collection,
    pub default: Option<Val>,
}

pub open spec fn default_model(d: Option<Value>) -> Option<Val> {
    match d {
        Some(v) => Some(v@),
        None => None,
    }
}

impl View for Arg {
    type V = ArgModel;

    open spec fn view(&self) -> ArgModel {
        ArgModel {
            name: self.arg@,
            arg_type: self.arg_type,
            ty: self.scalar_type,
            kind: self.kind,
            default: default_model(self.default),
        }
    }
}

impl Arg {
    pub fn new(
        arg: &'static str,
        desc: &'static str,
        arg_type: ArgType,
        scalar_type: ScalarType,
        kind: Collection,
        default: Option<Value>,
    ) -> (r: Arg)
        ensures
            r.arg == arg,
            r.desc == desc,
            r.arg_type == arg_type,
            r.scalar_type == scalar_type,
            r.kind == kind,
            r.default == default,
    {
        Arg { arg, desc, arg_type, scalar_type, kind, default }
    }
}

/// A command schema: its name, the required and the optional positional
/// arguments in parse order, and the named arguments.
#[derive(Debug)]
pub struct Command {
    pub name: &'static str,
    pub desc: &'static str,
    pub required_args: Vec<Arg>,
    pub optional_args: Vec<Arg>,
    pub kwargs: Vec<Arg>,
}

/// Mathematical model of a [`Command`].
pub struct CommandModel {
    pub name: Seq<char>,
    pub required: Seq<ArgModel>,
    pub optional: Seq<ArgModel>,
    pub kwargs: Seq<ArgModel>,
}

pub open spec fn args_model(v: Seq<Arg>) -> Seq<ArgModel> {
    v.map_values(|a: Arg| a@)
}

impl View for Command {
    type V = CommandModel;

    open spec fn view(&self) -> CommandModel {
        CommandModel {
            name: self.name@,
            required: args_model(self.required_args@),
            optional: args_model(self.optional_args@),
            kwargs: args_model(self.kwargs@),
        }
    }
}

/// Index of the first declaration at or after `i` named `name`, or `args.len()`.
pub open spec fn find_name(args: Seq<ArgModel>, name: Seq<char>, i: int) -> int
    decreases args.len() - i,
{
    if i < 0 || i >= args.len() {
        args.len() as int
    } else if args[i].name == name {
        i
    } else {
        find_name(args, name, i + 1)
    }
}

/// The schema after adding declaration `a`: a positional one without a
/// default is required, one with a default is optional, and a named one
/// replaces a named one of the same name or else is appended.
pub open spec fn with_arg(c: CommandModel, a: ArgModel) -> CommandModel {
    match a.arg_type {
        ArgType::Arg => if a.default is None {
            CommandModel { required: c.required.push(a), ..c }
        } else {
            CommandModel { optional: c.optional.push(a), ..c }
        },
        ArgType::Kwarg => {
            let k = find_name(c.kwargs, a.name, 0);
            if k < c.kwargs.len() {
                CommandModel { kwargs: c.kwargs.update(k, a), ..c }
            } else {
                CommandModel { kwargs: c.kwargs.push(a), ..c }
            }
        },
    }
}

/// A well-formed schema: required positionals have no default, optional
/// ones have one, named ones are named-kind and their names are distinct.
pub open spec fn schema_wf(c: CommandModel) -> bool {
    &&& forall|i: int|
        0 <= i < c.required.len() ==> (#[trigger] c.required[i]).arg_type == ArgType::Arg
            && c.required[i].default is None
    &&& forall|i: int|
        0 <= i < c.optional.len() ==> (#[trigger] c.optional[i]).arg_type == ArgType::Arg
            && c.optional[i].default is Some
    &&& forall|i: int| 0 <= i < c.kwargs.len() ==> (#[trigger] c.kwargs[i]).arg_type == ArgType::Kwarg
    &&& forall|i: int, j: int|
        0 <= i < c.kwargs.len() && 0 <= j < c.kwargs.len() && i != j ==> (#[trigger] c.kwargs[i]).name
            != (#[trigger] c.kwargs[j]).name
}

/// No two declarations of `args` share a name.
pub open spec fn distinct_names(args: Seq<ArgModel>) -> bool {
    forall|i: int, j: int|
        0 <= i < args.len() && 0 <= j < args.len() && i != j ==> (#[trigger] args[i]).name != (
        #[trigger] args[j]).name
}

/// All declarations of `c`: required, then optional, then named.
pub open spec fn all_decls(c: CommandModel) -> Seq<ArgModel> {
    c.required + c.optional + c.kwargs
}

/// `v` is a scalar of type `ty`; a float is in decimal float notation.
pub open spec fn scalar_fits(ty: ScalarType, v: Val) -> bool {
    match ty {
        ScalarType::Str => v is Str,
        ScalarType::U64 => v is U64,
        ScalarType::I64 => v is I64,
        ScalarType::F64 => v matches Val::F64(t) && is_float_literal(t),
    }
}

/// `v` has the kind that declaration `a` declares: one scalar of its type,
/// or a sequence of scalars of its type.
pub open spec fn fits(a: ArgModel, v: Val) -> bool {
    match a.kind {
        Collection::Unit => scalar_fits(a.ty, v),
        Collection::Vec => v matches Val::List(s) && forall|i: int|
            0 <= i < s.len() ==> scalar_fits(a.ty, #[trigger] s[i]),
    }
}

/// A sound schema: well-formed, no name shared by two declarations of any
/// groups, no two named arguments alike in lower-case form, and each
/// default of its declaration's kind.
///
/// `add_arg` does not enforce the last three: a schema is sound when it is
/// declared so.
pub open spec fn schema_sound(c: CommandModel) -> bool {
    &&& schema_wf(c)
    &&& distinct_names(all_decls(c))
    &&& forall|i: int, j: int|
        0 <= i < c.kwargs.len() && 0 <= j < c.kwargs.len() && i != j ==> lower_of(
            (#[trigger] c.kwargs[i]).name,
        ) != lower_of((#[trigger] c.kwargs[j]).name)
    &&& forall|i: int|
        0 <= i < all_decls(c).len() ==> ((#[trigger] all_decls(c)[i]).default matches Some(d) ==> fits(
            all_decls(c)[i],
            d,
        ))
}

pub proof fn lemma_find_name_result(args: Seq<ArgModel>, name: Seq<char>, i: int)
    requires
        0 <= i <= args.len(),
    ensures
        i <= find_name(args, name, i) <= args.len(),
        find_name(args, name, i) < args.len() ==> args[find_name(args, name, i)].name == name,
        forall|j: int| i <= j < find_name(args, name, i) ==> (#[trigger] args[j]).name != name,
    decreases args.len() - i,
{
    if i < args.len() {
        lemma_find_name_result(args, name, i + 1);
    }
}

impl Command {
    pub open spec fn wf(&self) -> bool {
        schema_wf(self@)
    }

    pub open spec fn sound(&self) -> bool {
        schema_sound(self@)
    }

    /// An empty schema for the command `name`.
    pub fn new(name: &'static str, desc: &'static str) -> (r: Command)
        ensures
            r.name == name,
            r.desc == desc,
            r@.name == name@,
            r@.required.len() == 0,
            r@.optional.len() == 0,
            r@.kwargs.len() == 0,
            r.wf(),
    {
        Command {
            name,
            desc,
            required_args: Vec::new(),
            optional_args: Vec::new(),
            kwargs: Vec::new(),
        }
    }

    /// Index of the named argument called `name`, or the number of named arguments.
    pub fn find_kwarg(&self, name: &str) -> (r: usize)
        ensures
            r == find_name(self@.kwargs, name@, 0),
    {
        let mut i: usize = 0;
        while i < self.kwargs.len()
            invariant
                i <= self.kwargs.len(),
                find_name(self@.kwargs, name@, 0) == find_name(self@.kwargs, name@, i as int),
            decreases self.kwargs.len() - i,
        {
            if same_text(self.kwargs[i].arg, name) {
                return i;
            }
            i += 1;
        }
        i
    }

    /// Adds a declaration to the group that its kind and default select.
    /// A named declaration replaces an earlier one of the same name.
    pub fn add_arg(&mut self, arg: Arg)
        ensures
            final(self)@ == with_arg(old(self)@, arg@),
            final(self).name == old(self).name,
            final(self).desc == old(self).desc,
            old(self).wf() ==> final(self).wf(),
    {
        let ghost a = arg@;
        let ghost c = self@;
        match arg.arg_type {
            ArgType::Arg => {
                if arg.default.is_none() {
                    self.required_args.push(arg);
                    assert(self@.required =~= c.required.push(a));
                } else {
                    self.optional_args.push(arg);
                    assert(self@.optional =~= c.optional.push(a));
                }
            },
            ArgType::Kwarg => {
                let k = self.find_kwarg(arg.arg);
                proof {
                    lemma_find_name_result(c.kwargs, a.name, 0);
                }
                if k < self.kwargs.len() {
                    self.kwargs.set(k, arg);
                    assert(self@.kwargs =~= c.kwargs.update(k as int, a));
                } else {
                    self.kwargs.push(arg);
                    assert(self@.kwargs =~= c.kwargs.push(a));
                }
            },
        }
        assert(self@ == with_arg(c, a));
    }
}

/// Two declarations agree in name, kind, scalar type, shape and in whether
/// they have a default; descriptions and default values play no part.
pub open spec fn same_decl(a: ArgModel, b: ArgModel) -> bool {
    &&& a.name == b.name
    &&& a.arg_type == b.arg_type
    &&& a.ty == b.ty
    &&& a.kind == b.kind
    &&& (a.default is Some) == (b.default is Some)
}

/// Two lists of declarations agree place by place.
pub open spec fn same_list(x: Seq<ArgModel>, y: Seq<ArgModel>) -> bool {
    x.len() == y.len() && forall|i: int| 0 <= i < x.len() ==> same_decl(#[trigger] x[i], y[i])
}

/// Two keyed groups of declarations have the same size, and each declaration
/// of the first agrees with the declaration of the second under its name.
pub open spec fn same_keyed(x: Seq<ArgModel>, y: Seq<ArgModel>) -> bool {
    &&& x.len() == y.len()
    &&& forall|i: int|
        0 <= i < x.len() ==> find_name(y, (#[trigger] x[i]).name, 0) < y.len() && same_decl(
            x[i],
            y[find_name(y, x[i].name, 0)],
        )
}

/// Two schemas agree in name, description and in their declarations.
pub open spec fn same_schema(a: &Command, b: &Command) -> bool {
    &&& a.name@ == b.name@
    &&& a.desc@ == b.desc@
    &&& same_list(a@.required, b@.required)
    &&& same_list(a@.optional, b@.optional)
    &&& same_keyed(a@.kwargs, b@.kwargs)
}

impl PartialEq for Arg {
    fn eq(&self, other: &Arg) -> (r: bool) {
        same_text(self.arg, other.arg) && self.arg_type == other.arg_type && self.scalar_type
            == other.scalar_type && self.kind == other.kind && self.default.is_some()
            == other.default.is_some()
    }
}

impl vstd::std_specs::cmp::PartialEqSpecImpl for Arg {
    open spec fn obeys_eq_spec() -> bool {
        true
    }

    open spec fn eq_spec(&self, other: &Arg) -> bool {
        same_decl(self@, other@)
    }
}

fn same_args(x: &Vec<Arg>, y: &Vec<Arg>) -> (r: bool)
    ensures
        r == same_list(args_model(x@), args_model(y@)),
{
    if x.len() != y.len() {
        return false;
    }
    let mut i: usize = 0;
    while i < x.len()
        invariant
            x@.len() == y@.len(),
            i <= x@.len(),
            forall|j: int| 0 <= j < i ==> same_decl(#[trigger] args_model(x@)[j], args_model(y@)[j]),
        decreases x.len() - i,
    {
        if !(x[i] == y[i]) {
            assert(!same_decl(args_model(x@)[i as int], args_model(y@)[i as int]));
            return false;
        }
        i += 1;
    }
    true
}

impl PartialEq for Command {
    fn eq(&self, other: &Command) -> (r: bool) {
        if !same_text(self.name, other.name) || !same_text(self.desc, other.desc) {
            return false;
        }
        if !same_args(&self.required_args, &other.required_args) || !same_args(
            &self.optional_args,
            &other.optional_args,
        ) {
            return false;
        }
        if self.kwargs.len() != other.kwargs.len() {
            return false;
        }
        let mut i: usize = 0;
        while i < self.kwargs.len()
            invariant
                i <= self.kwargs@.len(),
                self.kwargs@.len() == other.kwargs@.len(),
                forall|j: int|
                    0 <= j < i ==> find_name(other@.kwargs, (#[trigger] self@.kwargs[j]).name, 0)
                        < other@.kwargs.len() && same_decl(
                        self@.kwargs[j],
                        other@.kwargs[find_name(other@.kwargs, self@.kwargs[j].name, 0)],
                    ),
            decreases self.kwargs.len() - i,
        {
            let a = &self.kwargs[i];
            assert(self@.kwargs[i as int] == a@);
            let k = other.find_kwarg(a.arg);
            if k >= other.kwargs.len() {
                return false;
            }
            if !(*a == other.kwargs[k]) {
                return false;
            }
            i += 1;
        }
        true
    }
}

impl vstd::std_specs::cmp::PartialEqSpecImpl for Command {
    open spec fn obeys_eq_spec() -> bool {
        true
    }

    open spec fn eq_spec(&self, other: &Command) -> bool {
        same_schema(self, other)
    }
}

} // verus!
