//! The function registry: overloads by name, told apart by argument count.

use vstd::prelude::*;
use vstd::hash_map::StringHashMap;
use vstd::string::StringExecFns;
use crate::parser::grammar::{
    block_view, copy_block, copy_formals, formals_view, Block, BlockView, FormalParameter,
    FormalParameterView, Function,
};
use crate::text::{decimal_text, join_texts, push_decimal, texts};
use super::{ExecutionError, ExecutionErrorView};

verus! {

/// What a call runs: a block of the script, or a function of the host.
#[derive(Debug)]
pub enum Runnable<B> {
    Block(Block),
    BuiltIn(B),
}

/// One overload of a function: its parameters, the argument counts it
/// takes, what it runs, and the source it was read from.
#[derive(Debug)]
pub struct AnonymousFunction<B> {
    pub args: Vec<FormalParameter>,
    pub min_args: usize,
    pub max_args: usize,
    pub runnable: Runnable<B>,
    pub script: Option<String>,
}

/// Why a registration was refused.
#[derive(Debug)]
pub enum RegisterError {
    /// A script function would stand beside a host function of this name.
    OverloadBuiltin(String),
}

/// A [`RegisterError`] as a plain value.
pub enum RegisterErrorView {
    OverloadBuiltin(Seq<char>),
}

impl RegisterErrorView {
    /// The text that reports the error.
    pub open spec fn message(self) -> Seq<char> {
        match self {
            RegisterErrorView::OverloadBuiltin(name) => "Can not overload built-in function `"@
                + name + "`"@,
        }
    }
}

impl View for RegisterError {
    type V = RegisterErrorView;

    open spec fn view(&self) -> RegisterErrorView {
        match self {
            RegisterError::OverloadBuiltin(name) => RegisterErrorView::OverloadBuiltin(name@),
        }
    }
}

impl RegisterError {
    /// The text that reports the error.
    pub fn to_string(&self) -> (res: String)
        ensures
            res@ == self@.message(),
    {
        match self {
            RegisterError::OverloadBuiltin(name) => {
                let mut res = String::from_str("Can not overload built-in function `");
                res.append(name.as_str());
                res.append("`");
                res
            },
        }
    }
}

/// Whether one of `args` is a vector parameter.
pub open spec fn has_vector(args: Seq<FormalParameter>) -> bool {
    exists|i: int| 0 <= i < args.len() && (#[trigger] args[i]).vector
}

/// The least number of arguments that a function with the parameters `args` takes.
pub open spec fn least_args(args: Seq<FormalParameter>) -> int {
    if has_vector(args) {
        args.len() - 1
    } else {
        args.len() as int
    }
}

/// The greatest number of arguments that a function with the parameters
/// `args` takes; the greatest number there is stands for "no bound".
pub open spec fn most_args(args: Seq<FormalParameter>) -> int {
    if has_vector(args) {
        usize::MAX as int
    } else {
        args.len() as int
    }
}

impl<B> AnonymousFunction<B> {
    /// Whether the two overloads take some argument count in common.
    pub open spec fn spec_collides(&self, other: &AnonymousFunction<B>) -> bool {
        self.min_args <= other.max_args && self.max_args >= other.min_args
    }

    /// Whether the overload runs a function of the host.
    pub open spec fn spec_is_builtin(&self) -> bool {
        self.runnable is BuiltIn
    }

    /// Whether the overload takes `count` arguments.
    pub open spec fn accepts(&self, count: usize) -> bool {
        self.min_args <= count <= self.max_args
    }

    /// The overload with the given parts, its argument counts following
    /// from the parameters.
    pub open spec fn spec_new(
        args: Vec<FormalParameter>,
        runnable: Runnable<B>,
        script: Option<String>,
    ) -> AnonymousFunction<B> {
        AnonymousFunction {
            args,
            min_args: least_args(args@) as usize,
            max_args: most_args(args@) as usize,
            runnable,
            script,
        }
    }

    /// The overload with the given parts: without a vector parameter it
    /// takes as many arguments as it has parameters, with one it takes one
    /// fewer or any number more.
    pub fn new(args: Vec<FormalParameter>, runnable: Runnable<B>, script: Option<String>) -> (res:
        AnonymousFunction<B>)
        ensures
            res == Self::spec_new(args, runnable, script),
    {
        let mut found = false;
        let mut i: usize = 0;
        while i < args.len()
            invariant
                0 <= i <= args.len(),
                found == has_vector(args@.take(i as int)),
            decreases args.len() - i,
        {
            if args[i].vector {
                found = true;
            }
            assert(args@.take(i + 1)[i as int] == args@[i as int]);
            assert(forall|k: int|
                0 <= k < i ==> (#[trigger] args@.take(i as int)[k]) == args@.take(i + 1)[k]);
            i += 1;
        }
        assert(args@.take(args.len() as int) =~= args@);
        let (min_args, max_args) = if found {
            (args.len() - 1, usize::MAX)
        } else {
            (args.len(), args.len())
        };
        AnonymousFunction { min_args, max_args, args, runnable, script }
    }

    /// Whether the two overloads take some argument count in common.
    pub fn collides(&self, other: &AnonymousFunction<B>) -> (res: bool)
        ensures
            res == self.spec_collides(other),
    {
        self.min_args <= other.max_args && self.max_args >= other.min_args
    }

    /// Whether the overload runs a function of the host.
    pub fn is_builtin(&self) -> (res: bool)
        ensures
            res == self.spec_is_builtin(),
    {
        match self.runnable {
            Runnable::Block(_) => false,
            Runnable::BuiltIn(_) => true,
        }
    }
}

/// Whether one of `list` runs a function of the host.
pub open spec fn any_builtin<B>(list: Seq<AnonymousFunction<B>>) -> bool {
    exists|i: int| 0 <= i < list.len() && (#[trigger] list[i]).spec_is_builtin()
}

/// Whether `list` refuses `new`: a script function never joins a name that
/// holds a host function.
pub open spec fn rejects<B>(list: Seq<AnonymousFunction<B>>, new: AnonymousFunction<B>) -> bool {
    !new.spec_is_builtin() && any_builtin(list)
}

/// `list` without the overloads that collide with `new`, in the same order.
pub open spec fn without_colliding<B>(
    list: Seq<AnonymousFunction<B>>,
    new: AnonymousFunction<B>,
) -> Seq<AnonymousFunction<B>>
    decreases list.len(),
{
    if list.len() == 0 {
        Seq::empty()
    } else {
        let head = without_colliding(list.drop_last(), new);
        if list.last().spec_collides(&new) {
            head
        } else {
            head.push(list.last())
        }
    }
}

/// The overloads of a name after `new` was registered: those that collide
/// with it are gone, and it stands last.
pub open spec fn registered<B>(list: Seq<AnonymousFunction<B>>, new: AnonymousFunction<B>) -> Seq<
    AnonymousFunction<B>,
> {
    without_colliding(list, new).push(new)
}

/// No overload of `list` collides with `f`.
pub open spec fn clear_of<B>(list: Seq<AnonymousFunction<B>>, f: AnonymousFunction<B>) -> bool {
    forall|i: int| 0 <= i < list.len() ==> !(#[trigger] list[i]).spec_collides(&f)
}

/// No two overloads of `list` collide.
pub open spec fn disjoint<B>(list: Seq<AnonymousFunction<B>>) -> bool
    decreases list.len(),
{
    list.len() == 0 || (disjoint(list.drop_last()) && clear_of(list.drop_last(), list.last()))
}

/// Index of the first overload of `list` at or after `from` that takes
/// `count` arguments, or the length of `list` where none does.
pub open spec fn first_accepting<B>(list: Seq<AnonymousFunction<B>>, count: usize, from: int) -> int
    decreases list.len() - from,
{
    if from < 0 || from >= list.len() {
        list.len() as int
    } else if list[from].accepts(count) {
        from
    } else {
        first_accepting(list, count, from + 1)
    }
}

/// The overloads registered under one name.
pub struct EntryView<B> {
    pub name: Seq<char>,
    pub overloads: Seq<AnonymousFunction<B>>,
}

/// Index of the first entry at or after `from` with the name `name`, or
/// the number of entries where there is none.
pub open spec fn position_from<B>(entries: Seq<EntryView<B>>, name: Seq<char>, from: int) -> int
    decreases entries.len() - from,
{
    if from < 0 || from >= entries.len() {
        entries.len() as int
    } else if entries[from].name == name {
        from
    } else {
        position_from(entries, name, from + 1)
    }
}

/// The overloads registered under `name`; none where the name is unknown.
pub open spec fn overloads_of<B>(entries: Seq<EntryView<B>>, name: Seq<char>) -> Seq<
    AnonymousFunction<B>,
> {
    let at = position_from(entries, name, 0);
    if 0 <= at < entries.len() {
        entries[at].overloads
    } else {
        Seq::empty()
    }
}

/// Whether `name` has an entry.
pub open spec fn knows<B>(entries: Seq<EntryView<B>>, name: Seq<char>) -> bool {
    position_from(entries, name, 0) < entries.len()
}

/// Registration as a function of the registry: the registry after `new`
/// was registered under `name`, or `None` where it is refused.
pub open spec fn register_spec<B>(
    entries: Seq<EntryView<B>>,
    name: Seq<char>,
    new: AnonymousFunction<B>,
) -> Option<Seq<EntryView<B>>> {
    let at = position_from(entries, name, 0);
    if 0 <= at < entries.len() {
        if rejects(entries[at].overloads, new) {
            None
        } else {
            Some(
                entries.update(
                    at,
                    EntryView { name, overloads: registered(entries[at].overloads, new) },
                ),
            )
        }
    } else {
        Some(entries.push(EntryView { name, overloads: seq![new] }))
    }
}

/// What a successful registration answers.
pub open spec fn confirmation<B>(
    entries: Seq<EntryView<B>>,
    name: Seq<char>,
    new: AnonymousFunction<B>,
) -> Seq<char> {
    (if knows(entries, name) {
        "Registered overload for `"@
    } else {
        "Registered function `"@
    }) + name + "` ("@ + decimal_text(new.min_args as nat) + "-"@ + decimal_text(
        new.max_args as nat,
    ) + " args)"@
}

/// What resolving a call of `name` with `count` arguments finds: the index
/// of the overload among those of the name, or the error.
pub enum Resolution {
    Found(int),
    UnknownFunction,
    NoOverload,
}

/// Resolution as a function of the registry.
pub open spec fn resolve_spec<B>(entries: Seq<EntryView<B>>, name: Seq<char>, count: usize) -> Resolution {
    if !knows(entries, name) {
        Resolution::UnknownFunction
    } else {
        let list = overloads_of(entries, name);
        let at = first_accepting(list, count, 0);
        if 0 <= at < list.len() {
            Resolution::Found(at)
        } else {
            Resolution::NoOverload
        }
    }
}

/// No two entries have the same name, and within one name no two overloads collide.
pub open spec fn well_formed<B>(entries: Seq<EntryView<B>>) -> bool {
    &&& forall|i: int, j: int|
        0 <= i < j < entries.len() ==> (#[trigger] entries[i]).name != (#[trigger] entries[j]).name
    &&& forall|i: int| 0 <= i < entries.len() ==> disjoint((#[trigger] entries[i]).overloads)
}

/// The overloads registered under one name.
#[derive(Debug)]
pub struct Entry<B> {
    name: String,
    overloads: Vec<AnonymousFunction<B>>,
}

impl<B> View for Entry<B> {
    type V = EntryView<B>;

    closed spec fn view(&self) -> EntryView<B> {
        EntryView { name: self.name@, overloads: self.overloads@ }
    }
}

/// The registry of functions: for each name the overloads registered
/// under it, names in the order of their first registration, and a hash
/// map from each name to the place of its entry.
pub struct FunctionLibrary<B> {
    functions: Vec<Entry<B>>,
    index: StringHashMap<usize>,
}

/// The map finds exactly the names that have an entry, each at the place
/// of its entry.
pub open spec fn indexed<B>(index: Map<Seq<char>, usize>, entries: Seq<EntryView<B>>) -> bool {
    forall|name: Seq<char>|
        #![trigger index.contains_key(name)]
        #![trigger position_from(entries, name, 0)]
        (index.contains_key(name) <==> position_from(entries, name, 0) < entries.len()) && (
        index.contains_key(name) ==> index[name] == position_from(entries, name, 0))
}

/// The entries as plain values.
pub open spec fn entries_view<B>(entries: Seq<Entry<B>>) -> Seq<EntryView<B>> {
    Seq::new(entries.len(), |i: int| entries[i]@)
}

impl<B> View for FunctionLibrary<B> {
    type V = Seq<EntryView<B>>;

    closed spec fn view(&self) -> Seq<EntryView<B>> {
        entries_view(self.functions@)
    }
}

/// No entry between `from` and `i` has the name, so the search from `from`
/// finds what the search from `i` finds.
proof fn lemma_position_skips<B>(entries: Seq<EntryView<B>>, name: Seq<char>, from: int, i: int)
    requires
        0 <= from <= i <= entries.len(),
        forall|d: int| from <= d < i ==> (#[trigger] entries[d]).name != name,
    ensures
        position_from(entries, name, from) == position_from(entries, name, i),
    decreases i - from,
{
    if from < i {
        lemma_position_skips(entries, name, from + 1, i);
    }
}

/// No overload between `from` and `i` takes `count` arguments, so the
/// search from `from` finds what the search from `i` finds.
proof fn lemma_accepting_skips<B>(list: Seq<AnonymousFunction<B>>, count: usize, from: int, i: int)
    requires
        0 <= from <= i <= list.len(),
        forall|d: int| from <= d < i ==> !(#[trigger] list[d]).accepts(count),
    ensures
        first_accepting(list, count, from) == first_accepting(list, count, i),
    decreases i - from,
{
    if from < i {
        lemma_accepting_skips(list, count, from + 1, i);
    }
}

/// What stays of a list is as clear of `g` as the list was.
proof fn lemma_without_colliding_clear<B>(
    list: Seq<AnonymousFunction<B>>,
    new: AnonymousFunction<B>,
    g: AnonymousFunction<B>,
)
    requires
        clear_of(list, g),
    ensures
        clear_of(without_colliding(list, new), g),
    decreases list.len(),
{
    if list.len() > 0 {
        let init = list.drop_last();
        assert(clear_of(init, g)) by {
            assert forall|i: int| 0 <= i < init.len() implies !(#[trigger] init[i]).spec_collides(
                &g,
            ) by {
                assert(init[i] == list[i]);
            }
        }
        lemma_without_colliding_clear(init, new, g);
        assert(!list[list.len() - 1].spec_collides(&g));
    }
}

/// What stays of a list does not collide with the new overload.
proof fn lemma_without_colliding_new<B>(list: Seq<AnonymousFunction<B>>, new: AnonymousFunction<B>)
    ensures
        clear_of(without_colliding(list, new), new),
    decreases list.len(),
{
    if list.len() > 0 {
        lemma_without_colliding_new(list.drop_last(), new);
    }
}

/// What stays of a disjoint list is disjoint.
proof fn lemma_without_colliding_disjoint<B>(
    list: Seq<AnonymousFunction<B>>,
    new: AnonymousFunction<B>,
)
    requires
        disjoint(list),
    ensures
        disjoint(without_colliding(list, new)),
    decreases list.len(),
{
    if list.len() > 0 {
        let init = list.drop_last();
        lemma_without_colliding_disjoint(init, new);
        if !list.last().spec_collides(&new) {
            lemma_without_colliding_clear(init, new, list.last());
            let kept = without_colliding(init, new);
            assert(kept.push(list.last()).drop_last() =~= kept);
        }
    }
}

/// Registration keeps the overloads of a name disjoint.
pub proof fn lemma_registered_disjoint<B>(list: Seq<AnonymousFunction<B>>, new: AnonymousFunction<B>)
    requires
        disjoint(list),
    ensures
        disjoint(registered(list, new)),
{
    lemma_without_colliding_disjoint(list, new);
    lemma_without_colliding_new(list, new);
    let kept = without_colliding(list, new);
    assert(kept.push(new).drop_last() =~= kept);
}

/// The overload as registration makes it anew from its parts.
pub open spec fn renewed<B>(f: AnonymousFunction<B>) -> AnonymousFunction<B> {
    AnonymousFunction::spec_new(f.args, f.runnable, f.script)
}

/// The registry after the overloads `list[from..]` were registered under
/// `name` one by one, up to the first that is refused, and whether one was.
pub open spec fn register_list<B>(
    entries: Seq<EntryView<B>>,
    name: Seq<char>,
    list: Seq<AnonymousFunction<B>>,
    from: int,
) -> (Seq<EntryView<B>>, bool)
    decreases list.len() - from,
{
    if from < 0 || from >= list.len() {
        (entries, false)
    } else {
        match register_spec(entries, name, renewed(list[from])) {
            None => (entries, true),
            Some(next) => register_list(next, name, list, from + 1),
        }
    }
}

/// The registry after the entries `other[from..]` were merged into it one
/// by one, up to the first refusal, and the name that was refused.
pub open spec fn merge_spec<B>(
    entries: Seq<EntryView<B>>,
    other: Seq<EntryView<B>>,
    from: int,
) -> (Seq<EntryView<B>>, Option<Seq<char>>)
    decreases other.len() - from,
{
    if from < 0 || from >= other.len() {
        (entries, None)
    } else {
        let step = register_list(entries, other[from].name, other[from].overloads, 0);
        if step.1 {
            (step.0, Some(other[from].name))
        } else {
            merge_spec(step.0, other, from + 1)
        }
    }
}

/// Number of overloads in the entries `other[from..]`.
pub open spec fn count_overloads<B>(other: Seq<EntryView<B>>, from: int) -> nat
    decreases other.len() - from,
{
    if from < 0 || from >= other.len() {
        0
    } else {
        other[from].overloads.len() + count_overloads(other, from + 1)
    }
}

/// The function definition as the overload that registration makes of it.
pub open spec fn script_overload<B>(function: Function) -> AnonymousFunction<B> {
    AnonymousFunction::spec_new(
        function.args,
        Runnable::Block(function.block),
        Some(function.script),
    )
}

/// The registry after the definitions `functions[from..]` were registered
/// one by one, up to the first that is refused, and the name that was refused.
pub open spec fn add_scripts_spec<B>(
    entries: Seq<EntryView<B>>,
    functions: Seq<Function>,
    from: int,
) -> (Seq<EntryView<B>>, Option<Seq<char>>)
    decreases functions.len() - from,
{
    if from < 0 || from >= functions.len() {
        (entries, None)
    } else {
        match register_spec(entries, functions[from].name@, script_overload(functions[from])) {
            None => (entries, Some(functions[from].name@)),
            Some(next) => add_scripts_spec(next, functions, from + 1),
        }
    }
}

/// Whether one of `list` runs a function of the host.
fn holds_builtin<B>(list: &Vec<AnonymousFunction<B>>) -> (res: bool)
    ensures
        res == any_builtin(list@),
{
    let mut i: usize = 0;
    while i < list.len()
        invariant
            0 <= i <= list.len(),
            forall|k: int| 0 <= k < i ==> !(#[trigger] list@[k]).spec_is_builtin(),
        decreases list.len() - i,
    {
        if list[i].is_builtin() {
            return true;
        }
        i += 1;
    }
    false
}

/// `list` without the overloads that collide with `new`.
fn retain_clear<B>(list: Vec<AnonymousFunction<B>>, new: &AnonymousFunction<B>) -> (res: Vec<
    AnonymousFunction<B>,
>)
    ensures
        res@ == without_colliding(list@, *new),
{
    let ghost all = list@;
    let mut rest = list;
    let mut kept: Vec<AnonymousFunction<B>> = Vec::new();
    let ghost mut done: int = 0;
    while rest.len() > 0
        invariant
            0 <= done <= all.len(),
            rest@ == all.skip(done),
            kept@ == without_colliding(all.take(done), *new),
        decreases rest.len(),
    {
        let f = rest.remove(0);
        proof {
            assert(f == all[done]);
            assert(all.take(done + 1).drop_last() =~= all.take(done));
            assert(all.take(done + 1).last() == all[done]);
            assert(rest@ =~= all.skip(done + 1));
            done = done + 1;
        }
        if !f.collides(new) {
            kept.push(f);
        }
    }
    assert(all.take(done) =~= all);
    kept
}

/// What a successful registration answers.
fn confirm(name: &str, min: usize, max: usize, existed: bool) -> (res: String)
    ensures
        res@ == (if existed {
            "Registered overload for `"@
        } else {
            "Registered function `"@
        }) + name@ + "` ("@ + decimal_text(min as nat) + "-"@ + decimal_text(max as nat)
            + " args)"@,
{
    let mut res = if existed {
        String::from_str("Registered overload for `")
    } else {
        String::from_str("Registered function `")
    };
    res.append(name);
    res.append("` (");
    push_decimal(&mut res, min as u128);
    res.append("-");
    push_decimal(&mut res, max as u128);
    res.append(" args)");
    res
}

impl<B> FunctionLibrary<B> {
    /// No two entries share a name, no two overloads of a name collide,
    /// and the map leads to the entry of each name.
    #[verifier::type_invariant]
    spec fn sound(&self) -> bool {
        well_formed(self@) && indexed(self.index@, self@)
    }

    /// An empty registry.
    pub fn new() -> (res: FunctionLibrary<B>)
        ensures
            res@ == Seq::<EntryView<B>>::empty(),
    {
        let functions: Vec<Entry<B>> = Vec::new();
        let index: StringHashMap<usize> = StringHashMap::new();
        proof {
            assert(entries_view(functions@) =~= Seq::<EntryView<B>>::empty());
        }
        FunctionLibrary { functions, index }
    }

    /// Index of the entry of `name`, or the number of entries.
    fn position(&self, name: &str) -> (at: usize)
        ensures
            at == position_from(self@, name@, 0),
            at <= self.functions@.len(),
            self@.len() == self.functions@.len(),
            at < self.functions@.len() ==> self.functions@[at as int]@ == self@[at as int],
    {
        proof {
            use_type_invariant(self);
            lemma_position_is(self@, name@, 0);
            assert(self.index@.contains_key(name@) <==> position_from(self@, name@, 0)
                < self@.len());
        }
        match self.index.get(name) {
            Some(at) => *at,
            None => self.functions.len(),
        }
    }

    /// Registers an overload under `name`.
    ///
    /// A script function is refused where the name holds a host function.
    /// Otherwise the overloads that collide with the new one leave, and
    /// the new one is added last.
    pub fn add(
        &mut self,
        name: &str,
        args: Vec<FormalParameter>,
        runnable: Runnable<B>,
        script: Option<String>,
    ) -> (res: Result<String, RegisterError>)
        ensures
            match res {
                Ok(message) => register_spec(
                    old(self)@,
                    name@,
                    AnonymousFunction::spec_new(args, runnable, script),
                ) == Some(final(self)@) && message@ == confirmation(
                    old(self)@,
                    name@,
                    AnonymousFunction::spec_new(args, runnable, script),
                ),
                Err(err) => register_spec(
                    old(self)@,
                    name@,
                    AnonymousFunction::spec_new(args, runnable, script),
                ) is None && final(self)@ == old(self)@ && err@
                    == RegisterErrorView::OverloadBuiltin(name@),
            },
    {
        proof {
            use_type_invariant(&*self);
        }
        let anon = AnonymousFunction::new(args, runnable, script);
        let at = self.position(name);
        let min = anon.min_args;
        let max = anon.max_args;
        let existed = at < self.functions.len();
        let ghost before = self@;
        if existed {
            if !anon.is_builtin() && holds_builtin(&self.functions[at].overloads) {
                return Err(RegisterError::OverloadBuiltin(name.to_owned()));
            }
            let mut taken: FunctionLibrary<B> = FunctionLibrary::new();
            core::mem::swap(self, &mut taken);
            let FunctionLibrary { functions: mut entries, index } = taken;
            let entry = entries.remove(at);
            let Entry { name: entry_name, overloads } = entry;
            let mut kept = retain_clear(overloads, &anon);
            kept.push(anon);
            entries.insert(at, Entry { name: entry_name, overloads: kept });
            proof {
                let after = entries_view(entries@);
                lemma_position_is(before, name@, 0);
                assert(entry@ == before[at as int]);
                assert(entry_name@ == name@);
                assert(after.len() == before.len());
                assert forall|k: int| 0 <= k < after.len() implies #[trigger] after[k]
                    == register_spec(before, name@, anon)->0[k] by {
                    if k != at {
                        assert(after[k] == before[k]);
                    }
                }
                assert(after =~= register_spec(before, name@, anon)->0);
                lemma_registered_disjoint(before[at as int].overloads, anon);
                assert forall|i: int, j: int| 0 <= i < j < after.len() implies (
                #[trigger] after[i]).name != (#[trigger] after[j]).name by {
                    assert(after[i].name == before[i].name);
                    assert(after[j].name == before[j].name);
                }
                assert forall|i: int| 0 <= i < after.len() implies disjoint(
                    (#[trigger] after[i]).overloads,
                ) by {
                    if i != at {
                        assert(after[i] == before[i]);
                    }
                }
                assert forall|i: int| 0 <= i < before.len() implies (#[trigger] after[i]).name
                    == before[i].name by {
                    if i != at {
                        assert(after[i] == before[i]);
                    }
                }
                lemma_index_kept(index@, before, after);
            }
            *self = FunctionLibrary { functions: entries, index };
        } else {
            let mut taken: FunctionLibrary<B> = FunctionLibrary::new();
            core::mem::swap(self, &mut taken);
            let FunctionLibrary { functions: mut entries, index: mut index } = taken;
            let ghost held = index@;
            let place = entries.len();
            let mut overloads: Vec<AnonymousFunction<B>> = Vec::new();
            overloads.push(anon);
            entries.push(Entry { name: name.to_owned(), overloads });
            index.insert(name.to_owned(), place);
            proof {
                let after = entries_view(entries@);
                assert(overloads@ =~= seq![anon]);
                assert(after =~= register_spec(before, name@, anon)->0);
                assert(seq![anon].drop_last() =~= Seq::<AnonymousFunction<B>>::empty());
                assert(disjoint(Seq::<AnonymousFunction<B>>::empty()));
                assert(disjoint(seq![anon]));
                assert forall|i: int, j: int| 0 <= i < j < after.len() implies (
                #[trigger] after[i]).name != (#[trigger] after[j]).name by {
                    assert(after[i] == before[i]);
                    if j < before.len() {
                        assert(after[j] == before[j]);
                    } else if before[i].name == name@ {
                        lemma_position_finds(before, name@, i);
                    }
                }
                assert forall|i: int| 0 <= i < after.len() implies disjoint(
                    (#[trigger] after[i]).overloads,
                ) by {
                    if i < before.len() {
                        assert(after[i] == before[i]);
                    }
                }
                assert forall|i: int| 0 <= i < before.len() implies (#[trigger] after[i]).name
                    == before[i].name by {
                    assert(after[i] == before[i]);
                }
                assert(after[before.len() as int].name == name@);
                lemma_index_grown(held, before, after, name@);
            }
            *self = FunctionLibrary { functions: entries, index };
        }
        Ok(confirm(name, min, max, existed))
    }

    /// Registers a function of the host under `name`; this is never refused.
    pub fn add_builtin(&mut self, name: &str, args: Vec<FormalParameter>, runnable: B)
        ensures
            register_spec(
                old(self)@,
                name@,
                AnonymousFunction::spec_new(args, Runnable::BuiltIn(runnable), None),
            ) == Some(final(self)@),
    {
        let _ = self.add(name, args, Runnable::BuiltIn(runnable), None);
    }

    /// Registers a function that the script defines.
    pub fn add_script(&mut self, runnable: Function) -> (res: Result<String, RegisterError>)
        ensures
            match res {
                Ok(message) => register_spec(
                    old(self)@,
                    runnable.name@,
                    script_overload(runnable),
                ) == Some(final(self)@) && message@ == confirmation(
                    old(self)@,
                    runnable.name@,
                    script_overload::<B>(runnable),
                ),
                Err(err) => register_spec(old(self)@, runnable.name@, script_overload(runnable))
                    is None && final(self)@ == old(self)@ && err@
                    == RegisterErrorView::OverloadBuiltin(runnable.name@),
            },
    {
        let Function { name, args, block, script } = runnable;
        self.add(name.as_str(), args, Runnable::Block(block), Some(script))
    }

    /// Registers the functions that the script defines, in order, up to
    /// the first that is refused.
    #[verifier::loop_isolation(false)]
    pub fn add_scripts(&mut self, functions: Vec<Function>) -> (res: Result<(), RegisterError>)
        ensures
            final(self)@ == add_scripts_spec(old(self)@, functions@, 0).0,
            match res {
                Ok(_) => add_scripts_spec(old(self)@, functions@, 0).1 is None,
                Err(err) => add_scripts_spec(old(self)@, functions@, 0).1 is Some && err@
                    == RegisterErrorView::OverloadBuiltin(
                    add_scripts_spec(old(self)@, functions@, 0).1->0,
                ),
            },
    {
        let ghost all = functions@;
        let mut rest = functions;
        let ghost mut done: int = 0;
        while rest.len() > 0
            invariant
                0 <= done <= all.len(),
                rest@ == all.skip(done),
                add_scripts_spec(old(self)@, all, 0) == add_scripts_spec(self@, all, done),
            decreases rest.len(),
        {
            let func = rest.remove(0);
            let ghost before = self@;
            proof {
                assert(func == all[done]);
                assert(rest@ =~= all.skip(done + 1));
                assert(add_scripts_spec(before, all, done) == (match register_spec(
                    before,
                    all[done].name@,
                    script_overload(all[done]),
                ) {
                    None => (before, Some(all[done].name@)),
                    Some(next) => add_scripts_spec(next, all, done + 1),
                }));
            }
            match self.add_script(func) {
                Ok(_) => {},
                Err(err) => {
                    return Err(err);
                },
            }
            proof {
                done = done + 1;
            }
        }
        Ok(())
    }

    /// Registers every overload of `other`, entry by entry and in the
    /// order of each entry, up to the first that is refused.
    #[verifier::loop_isolation(false)]
    pub fn merge(&mut self, other: FunctionLibrary<B>) -> (res: Result<String, RegisterError>)
        ensures
            final(self)@ == merge_spec(old(self)@, other@, 0).0,
            match res {
                Ok(message) => merge_spec(old(self)@, other@, 0).1 is None && message@
                    == "Registered "@ + decimal_text(count_overloads(other@, 0)) + " functions"@,
                Err(err) => merge_spec(old(self)@, other@, 0).1 is Some && err@
                    == RegisterErrorView::OverloadBuiltin(merge_spec(old(self)@, other@, 0).1->0),
            },
    {
        let ghost all = other@;
        let mut entries = other.functions;
        let ghost mut done: int = 0;
        let mut count: u128 = 0;
        proof {
            assert(entries.len() <= usize::MAX);
            assert(all.len() == entries@.len());
            assert forall|i: int| 0 <= i < all.len() implies (#[trigger] all[i]).overloads.len()
                <= usize::MAX by {
                assert(all[i].overloads == entries@[i].overloads@);
                assert(entries@[i].overloads.len() <= usize::MAX);
            }
            lemma_count_bound(all, 0);
            assert(entries_view(entries@).skip(0) =~= all);
        }
        while entries.len() > 0
            invariant
                0 <= done <= all.len(),
                all.len() <= usize::MAX,
                entries_view(entries@) == all.skip(done),
                merge_spec(old(self)@, all, 0) == merge_spec(self@, all, done),
                count + count_overloads(all, done) == count_overloads(all, 0),
                count_overloads(all, 0) <= u128::MAX,
            decreases entries.len(),
        {
            let ghost held = entries@;
            let entry = entries.remove(0);
            let Entry { name, overloads } = entry;
            let ghost list = overloads@;
            let ghost start = self@;
            let mut rest = overloads;
            let ghost mut k: int = 0;
            proof {
                assert(entries_view(held).len() == held.len());
                assert(done < all.len());
                assert(entries_view(held)[0] == held[0]@);
                assert(entry@ == all.skip(done)[0]);
                assert(entry@ == all[done]);
                assert forall|i: int| 0 <= i < entries@.len() implies #[trigger] entries_view(
                    entries@,
                )[i] == all.skip(done + 1)[i] by {
                    assert(entries@[i] == held[i + 1]);
                    assert(entries_view(held)[i + 1] == held[i + 1]@);
                }
                assert(entries_view(entries@) =~= all.skip(done + 1));
                assert(rest@.skip(0) =~= rest@);
                assert(merge_spec(start, all, done) == ({
                    let step = register_list(start, name@, list, 0);
                    if step.1 {
                        (step.0, Some(name@))
                    } else {
                        merge_spec(step.0, all, done + 1)
                    }
                }));
            }
            while rest.len() > 0
                invariant
                    0 <= k <= list.len(),
                    0 <= done < all.len(),
                    rest@ == list.skip(k),
                    register_list(start, name@, list, 0) == register_list(self@, name@, list, k),
                    count + (list.len() - k) + count_overloads(all, done + 1) == count_overloads(
                        all,
                        0,
                    ),
                    count_overloads(all, 0) <= u128::MAX,
                    all[done] == (EntryView { name: name@, overloads: list }),
                    merge_spec(old(self)@, all, 0) == merge_spec(start, all, done),
                decreases rest.len(),
            {
                let func = rest.remove(0);
                let ghost before = self@;
                proof {
                    assert(func == list[k]);
                    assert(rest@ =~= list.skip(k + 1));
                    assert(register_list(before, name@, list, k) == (match register_spec(
                        before,
                        name@,
                        renewed(list[k]),
                    ) {
                        None => (before, true),
                        Some(next) => register_list(next, name@, list, k + 1),
                    }));
                }
                count += 1;
                let AnonymousFunction { args, min_args: _, max_args: _, runnable, script } = func;
                match self.add(name.as_str(), args, runnable, script) {
                    Ok(_) => {},
                    Err(err) => {
                        return Err(err);
                    },
                }
                proof {
                    k = k + 1;
                }
            }
            proof {
                assert(register_list(self@, name@, list, k) == (self@, false));
                done = done + 1;
            }
        }
        let mut message = String::from_str("Registered ");
        push_decimal(&mut message, count);
        message.append(" functions");
        Ok(message)
    }

    /// The overloads registered under `name`, if there are any.
    pub fn get_list(&self, name: &str) -> (res: Option<&Vec<AnonymousFunction<B>>>)
        ensures
            match res {
                Some(list) => knows(self@, name@) && list@ == overloads_of(self@, name@),
                None => !knows(self@, name@),
            },
    {
        let at = self.position(name);
        if at < self.functions.len() {
            Some(&self.functions[at].overloads)
        } else {
            None
        }
    }

    /// The overload that a call of `name` with `count` arguments runs: the
    /// first registered under the name that takes that many.
    #[verifier::loop_isolation(false)]
    pub fn resolve(&self, name: &str, count: usize) -> (res: Result<
        &AnonymousFunction<B>,
        ExecutionError,
    >)
        ensures
            match res {
                Ok(func) => resolve_spec(self@, name@, count) matches Resolution::Found(at)
                    && 0 <= at < overloads_of(self@, name@).len() && *func == overloads_of(
                    self@,
                    name@,
                )[at],
                Err(err) => match resolve_spec(self@, name@, count) {
                    Resolution::UnknownFunction => err@ == ExecutionErrorView::UndefinedFunction(
                        name@,
                    ),
                    Resolution::NoOverload => err@ == ExecutionErrorView::UndefinedOverload(
                        name@,
                        count,
                    ),
                    Resolution::Found(_) => false,
                },
            },
    {
        let list = match self.get_list(name) {
            Some(value) => value,
            None => {
                return Err(ExecutionError::UndefinedFunction(name.to_owned()));
            },
        };
        let mut i: usize = 0;
        while i < list.len()
            invariant
                0 <= i <= list.len(),
                forall|d: int| 0 <= d < i ==> !(#[trigger] list@[d]).accepts(count),
            decreases list.len() - i,
        {
            let func = &list[i];
            if func.max_args >= count && func.min_args <= count {
                proof {
                    lemma_accepting_skips(list@, count, 0, i as int);
                    assert(list@[i as int].accepts(count));
                    assert(first_accepting(list@, count, i as int) == i);
                }
                return Ok(func);
            }
            i += 1;
        }
        proof {
            lemma_accepting_skips(list@, count, 0, i as int);
        }
        Err(ExecutionError::UndefinedOverload(name.to_owned(), count))
    }
}

/// What the search from `from` finds has the name.
proof fn lemma_position_is<B>(entries: Seq<EntryView<B>>, name: Seq<char>, from: int)
    requires
        0 <= from <= entries.len(),
    ensures
        from <= position_from(entries, name, from) <= entries.len(),
        position_from(entries, name, from) < entries.len() ==> entries[position_from(
            entries,
            name,
            from,
        )].name == name,
    decreases entries.len() - from,
{
    if from < entries.len() && entries[from].name != name {
        lemma_position_is(entries, name, from + 1);
    }
}

/// An entry with the name lies at or after the position that the search finds.
proof fn lemma_position_finds<B>(entries: Seq<EntryView<B>>, name: Seq<char>, i: int)
    requires
        0 <= i < entries.len(),
        entries[i].name == name,
    ensures
        position_from(entries, name, 0) <= i,
{
    lemma_position_bound(entries, name, 0, i);
}

/// The search from `from` stops at the latest at an entry with the name.
proof fn lemma_position_bound<B>(entries: Seq<EntryView<B>>, name: Seq<char>, from: int, i: int)
    requires
        0 <= from <= i < entries.len(),
        entries[i].name == name,
    ensures
        from <= position_from(entries, name, from) <= i,
    decreases i - from,
{
    if from < i && entries[from].name != name {
        lemma_position_bound(entries, name, from + 1, i);
    }
}

/// The number of overloads of a registry fits in 128 bits.
proof fn lemma_count_bound<B>(other: Seq<EntryView<B>>, from: int)
    requires
        0 <= from <= other.len() <= usize::MAX,
        forall|i: int| 0 <= i < other.len() ==> (#[trigger] other[i]).overloads.len() <= usize::MAX,
    ensures
        count_overloads(other, from) <= (other.len() - from) * usize::MAX,
        count_overloads(other, from) <= u128::MAX,
    decreases other.len() - from,
{
    if from < other.len() {
        lemma_count_bound(other, from + 1);
        assert((other.len() - from) * usize::MAX == (other.len() - from - 1) * usize::MAX
            + usize::MAX) by (nonlinear_arith);
    }
    assert((other.len() - from) * usize::MAX <= u128::MAX) by (nonlinear_arith)
        requires
            0 <= other.len() - from <= usize::MAX,
            usize::MAX <= 0xffff_ffff_ffff_ffff,
    ;
}

/// In a disjoint list no two overloads collide.
pub proof fn lemma_disjoint_pair<B>(list: Seq<AnonymousFunction<B>>, i: int, j: int)
    requires
        disjoint(list),
        0 <= i < j < list.len(),
    ensures
        !list[i].spec_collides(&list[j]),
    decreases list.len(),
{
    if j == list.len() - 1 {
        assert(list.drop_last()[i] == list[i]);
    } else {
        lemma_disjoint_pair(list.drop_last(), i, j);
    }
}

/// Resolution is unique: in a well-formed registry no overload but the one
/// found takes the argument count.
pub proof fn lemma_resolution_unique<B>(entries: Seq<EntryView<B>>, name: Seq<char>, count: usize)
    requires
        well_formed(entries),
        resolve_spec(entries, name, count) is Found,
    ensures
        forall|j: int|
            0 <= j < overloads_of(entries, name).len() && j != resolve_spec(
                entries,
                name,
                count,
            )->Found_0 ==> !(#[trigger] overloads_of(entries, name)[j]).accepts(count),
{
    let list = overloads_of(entries, name);
    let at = resolve_spec(entries, name, count)->Found_0;
    lemma_position_is(entries, name, 0);
    lemma_accepting_is(list, count, 0);
    assert forall|j: int| 0 <= j < list.len() && j != at implies !(#[trigger] list[j]).accepts(
        count,
    ) by {
        if list[j].accepts(count) {
            if j < at {
                lemma_disjoint_pair(list, j, at);
            } else {
                lemma_disjoint_pair(list, at, j);
            }
        }
    }
}

/// What the search from `from` finds takes the argument count, and nothing between does.
proof fn lemma_accepting_is<B>(list: Seq<AnonymousFunction<B>>, count: usize, from: int)
    requires
        0 <= from <= list.len(),
    ensures
        from <= first_accepting(list, count, from) <= list.len(),
        first_accepting(list, count, from) < list.len() ==> list[first_accepting(
            list,
            count,
            from,
        )].accepts(count),
    decreases list.len() - from,
{
    if from < list.len() && !list[from].accepts(count) {
        lemma_accepting_is(list, count, from + 1);
    }
}

/// A registration is refused exactly where a script function meets a name
/// that holds a host function.
pub proof fn lemma_refusal<B>(entries: Seq<EntryView<B>>, name: Seq<char>, new: AnonymousFunction<B>)
    ensures
        register_spec(entries, name, new) is None <==> !new.spec_is_builtin() && any_builtin(
            overloads_of(entries, name),
        ),
{
    lemma_position_is(entries, name, 0);
}

/// Registration keeps a registry well formed and leaves the other names as they are.
pub proof fn lemma_register_keeps<B>(
    entries: Seq<EntryView<B>>,
    name: Seq<char>,
    new: AnonymousFunction<B>,
)
    requires
        well_formed(entries),
        register_spec(entries, name, new) is Some,
    ensures
        well_formed(register_spec(entries, name, new)->0),
        knows(register_spec(entries, name, new)->0, name),
        overloads_of(register_spec(entries, name, new)->0, name) == registered(
            overloads_of(entries, name),
            new,
        ),
        forall|other: Seq<char>|
            other != name ==> (#[trigger] overloads_of(register_spec(entries, name, new)->0, other))
                == overloads_of(entries, other),
        forall|other: Seq<char>|
            other != name ==> (#[trigger] knows(register_spec(entries, name, new)->0, other))
                == knows(entries, other),
{
    let after = register_spec(entries, name, new)->0;
    let at = position_from(entries, name, 0);
    lemma_position_is(entries, name, 0);
    if at < entries.len() {
        lemma_registered_disjoint(entries[at].overloads, new);
        assert forall|i: int, j: int| 0 <= i < j < after.len() implies (#[trigger] after[i]).name
            != (#[trigger] after[j]).name by {
            assert(after[i].name == entries[i].name);
            assert(after[j].name == entries[j].name);
        }
        assert forall|i: int| 0 <= i < after.len() implies disjoint(
            (#[trigger] after[i]).overloads,
        ) by {
            if i != at {
                assert(after[i] == entries[i]);
            }
        }
    } else {
        assert(registered(Seq::<AnonymousFunction<B>>::empty(), new) =~= seq![new]);
        assert(seq![new].drop_last() =~= Seq::<AnonymousFunction<B>>::empty());
        assert(disjoint(Seq::<AnonymousFunction<B>>::empty()));
        assert(disjoint(seq![new]));
        assert forall|i: int, j: int| 0 <= i < j < after.len() implies (#[trigger] after[i]).name
            != (#[trigger] after[j]).name by {
            assert(after[i] == entries[i]);
            if j < entries.len() {
                assert(after[j] == entries[j]);
            } else if entries[i].name == name {
                lemma_position_finds(entries, name, i);
            }
        }
        assert forall|i: int| 0 <= i < after.len() implies disjoint(
            (#[trigger] after[i]).overloads,
        ) by {
            if i < entries.len() {
                assert(after[i] == entries[i]);
            }
        }
    }
    assert forall|i: int| 0 <= i < entries.len() implies (#[trigger] after[i]).name
        == entries[i].name by {}
    lemma_position_same_names(entries, after, name, 0);
    lemma_position_is(after, name, 0);
    if at >= entries.len() {
        lemma_position_bound(after, name, 0, entries.len() as int);
    }
    assert forall|other: Seq<char>| other != name implies (#[trigger] overloads_of(after, other))
        == overloads_of(entries, other) by {
        lemma_position_is(entries, other, 0);
        lemma_position_is(after, other, 0);
        lemma_position_same_names(entries, after, other, 0);
        let p = position_from(entries, other, 0);
        if p < entries.len() {
            assert(after[p] == entries[p]);
        }
    }
    assert forall|other: Seq<char>| other != name implies (#[trigger] knows(after, other))
        == knows(entries, other) by {
        lemma_position_is(entries, other, 0);
        lemma_position_is(after, other, 0);
        lemma_position_same_names(entries, after, other, 0);
    }
}

/// Two registries whose entries have the same names, the second with at
/// most one entry more, are searched alike.
proof fn lemma_position_same_names<B>(
    entries: Seq<EntryView<B>>,
    after: Seq<EntryView<B>>,
    name: Seq<char>,
    from: int,
)
    requires
        0 <= from <= entries.len() <= after.len() <= entries.len() + 1,
        forall|i: int| 0 <= i < entries.len() ==> (#[trigger] after[i]).name == entries[i].name,
    ensures
        position_from(entries, name, from) < entries.len() ==> position_from(after, name, from)
            == position_from(entries, name, from),
        position_from(entries, name, from) >= entries.len() ==> position_from(after, name, from)
            >= entries.len(),
    decreases entries.len() - from,
{
    if from < entries.len() {
        assert(after[from].name == entries[from].name);
        if entries[from].name != name {
            lemma_position_same_names(entries, after, name, from + 1);
        }
    } else {
        lemma_position_is(after, name, from);
    }
}

/// Last write wins: a call with an argument count that a newly registered
/// overload takes resolves to that overload, which stands last under its name.
pub proof fn lemma_registered_resolves<B>(
    entries: Seq<EntryView<B>>,
    name: Seq<char>,
    new: AnonymousFunction<B>,
    count: usize,
)
    requires
        well_formed(entries),
        register_spec(entries, name, new) is Some,
        new.accepts(count),
    ensures
        resolve_spec(register_spec(entries, name, new)->0, name, count) == Resolution::Found(
            overloads_of(register_spec(entries, name, new)->0, name).len() - 1,
        ),
        overloads_of(register_spec(entries, name, new)->0, name).last() == new,
{
    let after = register_spec(entries, name, new)->0;
    lemma_register_keeps(entries, name, new);
    let list = overloads_of(entries, name);
    let kept = without_colliding(list, new);
    lemma_without_colliding_new(list, new);
    let now = overloads_of(after, name);
    assert(now == kept.push(new));
    assert forall|d: int| 0 <= d < kept.len() implies !(#[trigger] now[d]).accepts(count) by {
        assert(now[d] == kept[d]);
        assert(!kept[d].spec_collides(&new));
    }
    lemma_accepting_skips(now, count, 0, kept.len() as int);
}

/// The parameters `args[from..]` as a signature lists them: names
/// separated by a comma and a space, a vector parameter marked with `%`.
pub open spec fn parameters_text(args: Seq<FormalParameter>, upto: int) -> Seq<char>
    decreases upto,
{
    if upto <= 0 || upto > args.len() {
        Seq::empty()
    } else {
        parameters_text(args, upto - 1) + (if upto > 1 {
            ", "@
        } else {
            Seq::empty()
        }) + (if args[upto - 1].vector {
            "%"@
        } else {
            Seq::empty()
        }) + args[upto - 1].name@
    }
}

/// The signature of an overload registered under `name`.
pub open spec fn signature_text<B>(f: AnonymousFunction<B>, name: Seq<char>) -> Seq<char> {
    "fn "@ + name + "("@ + parameters_text(f.args@, f.args@.len() as int) + ")"@
}

/// What a listing shows of an overload, if it shows it: the source of an
/// overload that has one, a signature with an empty body of one that has none.
pub open spec fn listed<B>(
    f: AnonymousFunction<B>,
    name: Seq<char>,
    include_builtin: bool,
    include_script: bool,
) -> Option<Seq<char>> {
    match f.script {
        Some(script) => if include_script {
            Some(script@)
        } else {
            None
        },
        None => if include_builtin {
            Some(signature_text(f, name) + " {\n    // built-in\n}"@)
        } else {
            None
        },
    }
}

/// What a listing shows of the overloads `list[..upto]` of `name`.
pub open spec fn listed_overloads<B>(
    list: Seq<AnonymousFunction<B>>,
    name: Seq<char>,
    include_builtin: bool,
    include_script: bool,
    upto: int,
) -> Seq<Seq<char>>
    decreases upto,
{
    if upto <= 0 || upto > list.len() {
        Seq::empty()
    } else {
        let before = listed_overloads(list, name, include_builtin, include_script, upto - 1);
        match listed(list[upto - 1], name, include_builtin, include_script) {
            Some(text) => before.push(text),
            None => before,
        }
    }
}

/// What a listing shows of the entries `entries[..upto]`: of all of them,
/// or of the one that `wanted` names.
pub open spec fn listed_entries<B>(
    entries: Seq<EntryView<B>>,
    include_builtin: bool,
    include_script: bool,
    wanted: Option<Seq<char>>,
    upto: int,
) -> Seq<Seq<char>>
    decreases upto,
{
    if upto <= 0 || upto > entries.len() {
        Seq::empty()
    } else {
        let before = listed_entries(entries, include_builtin, include_script, wanted, upto - 1);
        let entry = entries[upto - 1];
        if wanted is None || wanted == Some(entry.name) {
            before + listed_overloads(
                entry.overloads,
                entry.name,
                include_builtin,
                include_script,
                entry.overloads.len() as int,
            )
        } else {
            before
        }
    }
}

/// Calls `itertools::join` on the strings with the separator. As its
/// documentation says, the result is the elements one after the other
/// with the separator between each two.
#[verifier::external_body]
fn join_lines(parts: &Vec<String>, separator: &str) -> (res: String)
    ensures
        res@ == join_texts(texts(parts@), separator@),
{
    itertools::join(parts.iter(), separator)
}

impl<B> AnonymousFunction<B> {
    /// The signature of the overload as a function called `name`.
    pub fn signature(&self, name: &str) -> (res: String)
        ensures
            res@ == signature_text(*self, name@),
    {
        let mut res = String::from_str("fn ");
        res.append(name);
        res.append("(");
        let ghost head = res@;
        let mut i: usize = 0;
        while i < self.args.len()
            invariant
                0 <= i <= self.args.len(),
                res@ == head + parameters_text(self.args@, i as int),
            decreases self.args.len() - i,
        {
            let ghost before = res@;
            if i > 0 {
                res.append(", ");
            }
            if self.args[i].vector {
                res.append("%");
            }
            res.append(self.args[i].name.as_str());
            proof {
                assert(res@ =~= head + parameters_text(self.args@, i + 1));
            }
            i += 1;
        }
        res.append(")");
        res
    }
}

impl<B> FunctionLibrary<B> {
    /// The sources of the registered functions, one after the other and
    /// separated by line breaks: of the functions called `name`, or of all
    /// without a `name`. A function without a source is shown as its
    /// signature with an empty body.
    pub fn get_scripts(&self, include_builtin: bool, include_script: bool, name: Option<&str>) -> (res:
        String)
        ensures
            res@ == join_texts(
                listed_entries(
                    self@,
                    include_builtin,
                    include_script,
                    match name {
                        Some(wanted) => Some(wanted@),
                        None => None,
                    },
                    self@.len() as int,
                ),
                "\n"@,
            ),
    {
        let ghost wanted: Option<Seq<char>> = match name {
            Some(wanted) => Some(wanted@),
            None => None,
        };
        let owned: Option<String> = match name {
            Some(wanted) => Some(wanted.to_owned()),
            None => None,
        };
        let mut parts: Vec<String> = Vec::new();
        let mut i: usize = 0;
        proof {
            assert(texts(parts@) =~= Seq::empty());
        }
        while i < self.functions.len()
            invariant
                0 <= i <= self.functions.len(),
                self@.len() == self.functions@.len(),
                owned is Some <==> wanted is Some,
                owned matches Some(text) ==> wanted == Some(text@),
                texts(parts@) == listed_entries(
                    self@,
                    include_builtin,
                    include_script,
                    wanted,
                    i as int,
                ),
            decreases self.functions.len() - i,
        {
            let entry = &self.functions[i];
            proof {
                assert(self@[i as int] == entry@);
            }
            let shown = match &owned {
                Some(text) => entry.name == *text,
                None => true,
            };
            if shown {
                let ghost before = texts(parts@);
                let mut k: usize = 0;
                proof {
                    assert(before + Seq::<Seq<char>>::empty() =~= before);
                }
                while k < entry.overloads.len()
                    invariant
                        0 <= k <= entry.overloads.len(),
                        texts(parts@) == before + listed_overloads(
                            entry.overloads@,
                            entry.name@,
                            include_builtin,
                            include_script,
                            k as int,
                        ),
                    decreases entry.overloads.len() - k,
                {
                    let func = &entry.overloads[k];
                    let ghost held = texts(parts@);
                    let ghost sofar = listed_overloads(
                        entry.overloads@,
                        entry.name@,
                        include_builtin,
                        include_script,
                        k as int,
                    );
                    match &func.script {
                        Some(script) => {
                            if include_script {
                                parts.push(script.clone());
                                proof {
                                    assert(texts(parts@) =~= held.push(script@));
                                    assert(held.push(script@) =~= before + sofar.push(script@));
                                }
                            }
                        },
                        None => {
                            if include_builtin {
                                let mut text = func.signature(entry.name.as_str());
                                text.append(" {\n    // built-in\n}");
                                proof {
                                    assert(texts(parts@.push(text)) =~= held.push(text@));
                                    assert(held.push(text@) =~= before + sofar.push(text@));
                                }
                                parts.push(text);
                            }
                        },
                    }
                    k += 1;
                }
            }
            i += 1;
        }
        join_lines(&parts, "\n")
    }
}

/// A [`Runnable`] as a plain value.
pub enum RunnableView<B> {
    Block(BlockView),
    BuiltIn(B),
}

/// An overload as a plain value.
pub struct OverloadView<B> {
    pub args: Seq<FormalParameterView>,
    pub min_args: usize,
    pub max_args: usize,
    pub runnable: RunnableView<B>,
    pub script: Option<Seq<char>>,
}

/// The overloads of one name as plain values.
pub struct ListingView<B> {
    pub name: Seq<char>,
    pub overloads: Seq<OverloadView<B>>,
}

/// What a call runs, as a plain value.
pub open spec fn runnable_view<B>(runnable: Runnable<B>) -> RunnableView<B> {
    match runnable {
        Runnable::Block(block) => RunnableView::Block(block_view(block)),
        Runnable::BuiltIn(host) => RunnableView::BuiltIn(host),
    }
}

/// The overload as a plain value.
pub open spec fn overload_view<B>(f: AnonymousFunction<B>) -> OverloadView<B> {
    OverloadView {
        args: formals_view(f.args@),
        min_args: f.min_args,
        max_args: f.max_args,
        runnable: runnable_view(f.runnable),
        script: match f.script {
            Some(script) => Some(script@),
            None => None,
        },
    }
}

/// The overloads as plain values.
pub open spec fn overloads_view<B>(list: Seq<AnonymousFunction<B>>) -> Seq<OverloadView<B>> {
    Seq::new(list.len(), |i: int| overload_view(list[i]))
}

/// The registry as a plain value, down to the statements of its functions.
pub open spec fn registry_view<B>(entries: Seq<EntryView<B>>) -> Seq<ListingView<B>> {
    Seq::new(
        entries.len(),
        |i: int|
            ListingView { name: entries[i].name, overloads: overloads_view(entries[i].overloads) },
    )
}

/// Whether overloads collide shows in their plain values.
proof fn lemma_disjoint_by_view<B>(a: Seq<AnonymousFunction<B>>, b: Seq<AnonymousFunction<B>>)
    requires
        overloads_view(a) == overloads_view(b),
        disjoint(a),
    ensures
        disjoint(b),
    decreases a.len(),
{
    assert(overloads_view(a).len() == a.len());
    assert(overloads_view(b).len() == b.len());
    if a.len() > 0 {
        assert(overloads_view(a.drop_last()) =~= overloads_view(a).drop_last());
        assert(overloads_view(b.drop_last()) =~= overloads_view(b).drop_last());
        lemma_disjoint_by_view(a.drop_last(), b.drop_last());
        assert(overload_view(a.last()) == overloads_view(a)[a.len() - 1]);
        assert(overload_view(b.last()) == overloads_view(b)[b.len() - 1]);
        assert forall|i: int| 0 <= i < b.drop_last().len() implies !(
        #[trigger] b.drop_last()[i]).spec_collides(&b.last()) by {
            assert(overload_view(a.drop_last()[i]) == overloads_view(a)[i]);
            assert(overload_view(b.drop_last()[i]) == overloads_view(b)[i]);
            assert(!a.drop_last()[i].spec_collides(&a.last()));
        }
    }
}

impl<B: Copy> Clone for Runnable<B> {
    fn clone(&self) -> (res: Self)
        ensures
            runnable_view(res) == runnable_view(*self),
    {
        match self {
            Runnable::Block(block) => Runnable::Block(copy_block(block)),
            Runnable::BuiltIn(host) => Runnable::BuiltIn(*host),
        }
    }
}

impl<B: Copy> Clone for AnonymousFunction<B> {
    fn clone(&self) -> (res: Self)
        ensures
            overload_view(res) == overload_view(*self),
    {
        AnonymousFunction {
            args: copy_formals(&self.args),
            min_args: self.min_args,
            max_args: self.max_args,
            runnable: self.runnable.clone(),
            script: match &self.script {
                Some(script) => Some(script.clone()),
                None => None,
            },
        }
    }
}

impl<B: Copy> Clone for FunctionLibrary<B> {
    fn clone(&self) -> (res: Self)
        ensures
            registry_view(res@) == registry_view(self@),
    {
        proof {
            use_type_invariant(self);
        }
        let mut functions: Vec<Entry<B>> = Vec::new();
        let mut index: StringHashMap<usize> = StringHashMap::new();
        let mut k: usize = 0;
        proof {
            assert(entries_view(functions@) =~= self@.take(0));
            lemma_index_empty(index@, self@);
        }
        while k < self.functions.len()
            invariant
                0 <= k <= self.functions.len(),
                functions@.len() == k,
                well_formed(self@),
                self@.len() == self.functions@.len(),
                indexed(index@, self@.take(k as int)),
                forall|i: int|
                    0 <= i < k ==> (#[trigger] functions@[i]).name@ == self.functions@[i].name@
                        && overloads_view(functions@[i].overloads@) == overloads_view(
                        self.functions@[i].overloads@,
                    ),
            decreases self.functions.len() - k,
        {
            let entry = &self.functions[k];
            let mut overloads: Vec<AnonymousFunction<B>> = Vec::new();
            let mut i: usize = 0;
            while i < entry.overloads.len()
                invariant
                    0 <= i <= entry.overloads.len(),
                    overloads@.len() == i,
                    forall|j: int|
                        0 <= j < i ==> overload_view(#[trigger] overloads@[j]) == overload_view(
                            entry.overloads@[j],
                        ),
                decreases entry.overloads.len() - i,
            {
                let copy = entry.overloads[i].clone();
                overloads.push(copy);
                i += 1;
            }
            proof {
                assert(overloads_view(overloads@) =~= overloads_view(entry.overloads@));
            }
            let ghost held = index@;
            functions.push(Entry { name: entry.name.clone(), overloads });
            index.insert(entry.name.clone(), k);
            proof {
                let before = self@.take(k as int);
                let after = self@.take(k + 1);
                assert(self@[k as int] == entry@);
                assert(after =~= before.push(self@[k as int]));
                assert forall|i: int| 0 <= i < before.len() implies (#[trigger] after[i]).name
                    == before[i].name by {}
                if knows(before, entry.name@) {
                    lemma_position_is(before, entry.name@, 0);
                    let p = position_from(before, entry.name@, 0);
                    assert(self@[p].name == self@[k as int].name);
                }
                lemma_index_grown(held, before, after, entry.name@);
            }
            k += 1;
        }
        proof {
            let copied = entries_view(functions@);
            let held = self@;
            assert(registry_view(copied) =~= registry_view(held)) by {
                assert forall|i: int| 0 <= i < copied.len() implies #[trigger] registry_view(
                    copied,
                )[i] == registry_view(held)[i] by {
                    assert(copied[i] == functions@[i]@);
                    assert(held[i] == self.functions@[i]@);
                }
            }
            assert forall|i: int, j: int| 0 <= i < j < copied.len() implies (
            #[trigger] copied[i]).name != (#[trigger] copied[j]).name by {
                assert(copied[i].name == held[i].name);
                assert(copied[j].name == held[j].name);
            }
            assert forall|i: int| 0 <= i < copied.len() implies disjoint(
                (#[trigger] copied[i]).overloads,
            ) by {
                assert(copied[i] == functions@[i]@);
                assert(held[i] == self.functions@[i]@);
                lemma_disjoint_by_view(held[i].overloads, copied[i].overloads);
            }
            assert(held.take(held.len() as int) =~= held);
            assert forall|i: int| 0 <= i < held.len() implies (#[trigger] copied[i]).name
                == held[i].name by {}
            lemma_index_kept(index@, held, copied);
        }
        FunctionLibrary { functions, index }
    }
}

/// A registry whose entries keep their names is searched as before, so
/// the map leads to it as before.
proof fn lemma_index_kept<B>(
    index: Map<Seq<char>, usize>,
    before: Seq<EntryView<B>>,
    after: Seq<EntryView<B>>,
)
    requires
        indexed(index, before),
        before.len() == after.len(),
        forall|i: int| 0 <= i < before.len() ==> (#[trigger] after[i]).name == before[i].name,
    ensures
        indexed(index, after),
{
    assert forall|name: Seq<char>|
        #![trigger index.contains_key(name)]
        #![trigger position_from(after, name, 0)]
        (index.contains_key(name) <==> position_from(after, name, 0) < after.len()) && (
        index.contains_key(name) ==> index[name] == position_from(after, name, 0)) by {
        lemma_position_same_names(before, after, name, 0);
        lemma_position_is(after, name, 0);
        lemma_position_is(before, name, 0);
        assert(index.contains_key(name) <==> position_from(before, name, 0) < before.len());
    }
}

/// A registry with one more entry, under a name that had none, is found
/// by the map with that name added.
proof fn lemma_index_grown<B>(
    index: Map<Seq<char>, usize>,
    before: Seq<EntryView<B>>,
    after: Seq<EntryView<B>>,
    name: Seq<char>,
)
    requires
        indexed(index, before),
        !knows(before, name),
        before.len() <= usize::MAX,
        after.len() == before.len() + 1,
        forall|i: int| 0 <= i < before.len() ==> (#[trigger] after[i]).name == before[i].name,
        after[before.len() as int].name == name,
    ensures
        indexed(index.insert(name, before.len() as usize), after),
{
    let grown = index.insert(name, before.len() as usize);
    assert forall|other: Seq<char>|
        #![trigger grown.contains_key(other)]
        #![trigger position_from(after, other, 0)]
        (grown.contains_key(other) <==> position_from(after, other, 0) < after.len()) && (
        grown.contains_key(other) ==> grown[other] == position_from(after, other, 0)) by {
        lemma_position_same_names(before, after, other, 0);
        lemma_position_is(after, other, 0);
        lemma_position_is(before, other, 0);
        assert(index.contains_key(other) <==> position_from(before, other, 0) < before.len());
        if other == name {
            lemma_position_bound(after, name, 0, before.len() as int);
        }
    }
}

/// The empty map leads to the registry without entries.
proof fn lemma_index_empty<B>(index: Map<Seq<char>, usize>, entries: Seq<EntryView<B>>)
    requires
        index == Map::<Seq<char>, usize>::empty(),
    ensures
        indexed(index, entries.take(0)),
{
}

} // verus!
