//! Variable scopes: one global map and a stack of block-local maps.

use vstd::prelude::*;
use vstd::hash_map::StringHashMap;
use std::collections::VecDeque;
use super::output::{Output, OutputView};

verus! {

/// One map from variable names to values.
pub type Scope = StringHashMap<Output>;

/// A scope as a plain value.
pub type Bindings = Map<Seq<char>, OutputView>;

/// The bindings that `scope` holds.
pub open spec fn scope_view(scope: Scope) -> Bindings {
    Map::new(|name: Seq<char>| scope@.contains_key(name), |name: Seq<char>| scope@[name]@)
}

/// The bindings of each frame.
pub open spec fn frames_view(frames: Seq<Scope>) -> Seq<Bindings> {
    Seq::new(frames.len(), |i: int| scope_view(frames[i]))
}

/// Index of the first frame at or after `from` that binds `name`, or the
/// number of frames where none does.
pub open spec fn first_holder(frames: Seq<Bindings>, name: Seq<char>, from: int) -> int
    decreases frames.len() - from,
{
    if from < 0 || from >= frames.len() {
        frames.len() as int
    } else if frames[from].contains_key(name) {
        from
    } else {
        first_holder(frames, name, from + 1)
    }
}

/// A scope stack as a plain value: the global bindings and the local
/// frames, innermost first.
pub struct ScopeStackView {
    pub global: Bindings,
    pub frames: Seq<Bindings>,
}

impl ScopeStackView {
    /// Index of the innermost frame that binds `name`, or the number of
    /// frames where no frame does.
    pub open spec fn holder(self, name: Seq<char>) -> int {
        first_holder(self.frames, name, 0)
    }

    /// The value that `name` denotes: that of the innermost frame that
    /// binds it, else that of the global bindings.
    pub open spec fn lookup(self, name: Seq<char>) -> Option<OutputView> {
        let h = self.holder(name);
        if 0 <= h < self.frames.len() {
            Some(self.frames[h][name])
        } else if self.global.contains_key(name) {
            Some(self.global[name])
        } else {
            None
        }
    }

    /// The stack with one more, empty, innermost frame.
    pub open spec fn push(self) -> ScopeStackView {
        ScopeStackView { global: self.global, frames: seq![Map::empty()] + self.frames }
    }

    /// The stack without its innermost frame.
    pub open spec fn pop(self) -> ScopeStackView {
        ScopeStackView { global: self.global, frames: self.frames.drop_first() }
    }

    /// The stack without its `n` innermost frames.
    pub open spec fn popped(self, n: int) -> ScopeStackView {
        ScopeStackView { global: self.global, frames: self.frames.skip(n) }
    }

    /// The stack with `name` bound to `value` in frame `i`.
    pub open spec fn bind_in_frame(self, i: int, name: Seq<char>, value: OutputView) -> ScopeStackView {
        ScopeStackView {
            global: self.global,
            frames: self.frames.update(i, self.frames[i].insert(name, value)),
        }
    }

    /// The stack with `name` bound to `value` in the global bindings.
    pub open spec fn bind_global(self, name: Seq<char>, value: OutputView) -> ScopeStackView {
        ScopeStackView { global: self.global.insert(name, value), frames: self.frames }
    }

    /// Binds `name` in the innermost frame, or globally without a frame.
    pub open spec fn declare(self, name: Seq<char>, value: OutputView) -> ScopeStackView {
        if self.frames.len() > 0 {
            self.bind_in_frame(0, name, value)
        } else {
            self.bind_global(name, value)
        }
    }

    /// Declare-or-mutate: rebinds `name` where it is visible, the
    /// innermost binding first; binds it anew as `declare` does where it is
    /// not visible at all.
    pub open spec fn assign(self, name: Seq<char>, value: OutputView) -> ScopeStackView {
        let h = self.holder(name);
        if 0 <= h < self.frames.len() {
            self.bind_in_frame(h, name, value)
        } else if self.global.contains_key(name) {
            self.bind_global(name, value)
        } else {
            self.declare(name, value)
        }
    }

    /// The stack that a call starts with: the same global bindings and no frame.
    pub open spec fn sibling(self) -> ScopeStackView {
        ScopeStackView { global: self.global, frames: Seq::empty() }
    }
}

/// The global map and the local frames of one chain of nested blocks.
pub struct ScopeStack {
    global: Scope,
    stack: VecDeque<Scope>,
}

impl View for ScopeStack {
    type V = ScopeStackView;

    closed spec fn view(&self) -> ScopeStackView {
        ScopeStackView { global: scope_view(self.global), frames: frames_view(self.stack@) }
    }
}

/// No frame between `from` and `i` binds `name`, so the first holder from
/// `from` on is the first holder from `i` on.
proof fn lemma_first_holder_skips(frames: Seq<Bindings>, name: Seq<char>, from: int, i: int)
    requires
        0 <= from <= i <= frames.len(),
        forall|d: int| from <= d < i ==> !(#[trigger] frames[d]).contains_key(name),
    ensures
        first_holder(frames, name, from) == first_holder(frames, name, i),
    decreases i - from,
{
    if from < i {
        lemma_first_holder_skips(frames, name, from + 1, i);
    }
}

impl ScopeStack {
    /// A stack over `global` with no local frame.
    pub fn new(global: Scope) -> (res: ScopeStack)
        ensures
            res@ == (ScopeStackView { global: scope_view(global), frames: Seq::empty() }),
    {
        let res = ScopeStack { global, stack: VecDeque::new() };
        assert(res@.frames =~= Seq::empty());
        res
    }

    /// Gives up the stack and hands back its global map.
    pub fn into_global(self) -> (res: Scope)
        ensures
            scope_view(res) == self@.global,
    {
        self.global
    }

    /// The stack of a call made from `sibling`: it takes the global map
    /// along and starts with no local frame. Until `return_frame` hands the
    /// map back, `sibling` keeps its frames over an empty global map.
    pub fn call_frame(sibling: &mut ScopeStack) -> (res: ScopeStack)
        ensures
            res@ == old(sibling)@.sibling(),
            final(sibling)@ == (ScopeStackView {
                global: Map::empty(),
                frames: old(sibling)@.frames,
            }),
    {
        let mut global: Scope = StringHashMap::new();
        core::mem::swap(&mut global, &mut sibling.global);
        let res = ScopeStack { global, stack: VecDeque::new() };
        assert(res@.frames =~= Seq::empty());
        assert(scope_view(sibling.global) =~= Map::empty());
        res
    }

    /// Ends a call: takes the global map back from the stack of the call.
    pub fn return_frame(&mut self, callee: ScopeStack)
        ensures
            final(self)@ == (ScopeStackView { global: callee@.global, frames: old(self)@.frames }),
    {
        self.global = callee.global;
    }

    /// Number of local frames.
    pub fn depth(&self) -> (res: usize)
        ensures
            res == self@.frames.len(),
    {
        self.stack.len()
    }

    /// Enters a block: adds an empty innermost frame.
    pub fn push(&mut self)
        ensures
            final(self)@ == old(self)@.push(),
    {
        self.stack.push_front(StringHashMap::new());
        assert(scope_view(self.stack@[0]) =~= Map::empty());
        assert(self@.frames =~= old(self)@.push().frames);
    }

    /// Leaves a block: drops the innermost frame.
    pub fn pop(&mut self)
        requires
            old(self)@.frames.len() > 0,
        ensures
            final(self)@ == old(self)@.pop(),
    {
        let _ = self.stack.pop_front();
        assert(self@.frames =~= old(self)@.pop().frames);
    }

    /// The value of `var`: that of the innermost frame that binds it, else
    /// the global one.
    pub fn get_var(&self, var: &str) -> (res: Option<&Output>)
        ensures
            match res {
                Some(out) => self@.lookup(var@) == Some(out@),
                None => self@.lookup(var@) is None,
            },
    {
        let n = self.stack.len();
        let mut i: usize = 0;
        while i < n
            invariant
                n == self.stack@.len(),
                0 <= i <= n,
                forall|d: int| 0 <= d < i ==> !(#[trigger] self@.frames[d]).contains_key(var@),
            decreases n - i,
        {
            let found = self.stack[i].get(var);
            if let Some(out) = found {
                proof {
                    lemma_first_holder_skips(self@.frames, var@, 0, i as int);
                }
                return Some(out);
            }
            i += 1;
        }
        proof {
            lemma_first_holder_skips(self@.frames, var@, 0, n as int);
        }
        self.global.get(var)
    }

    /// Binds `var` in frame `i`.
    fn bind_in_frame(&mut self, i: usize, var: &str, value: Output)
        requires
            i < old(self)@.frames.len(),
        ensures
            final(self)@ == old(self)@.bind_in_frame(i as int, var@, value@),
    {
        let taken = self.stack.remove(i);
        let mut frame = taken.unwrap();
        let ghost before = scope_view(frame);
        frame.insert(var.to_owned(), value);
        assert(scope_view(frame) =~= before.insert(var@, value@));
        self.stack.insert(i, frame);
        assert(self@.frames =~= old(self)@.bind_in_frame(i as int, var@, value@).frames);
    }

    /// Binds `var` in the global map.
    fn bind_global(&mut self, var: &str, value: Output)
        ensures
            final(self)@ == old(self)@.bind_global(var@, value@),
    {
        let ghost before = scope_view(self.global);
        self.global.insert(var.to_owned(), value);
        assert(scope_view(self.global) =~= before.insert(var@, value@));
    }

    /// Binds `var` in the innermost frame, or globally where there is no
    /// frame, whatever is bound further out.
    pub fn declare_var(&mut self, var: &str, value: Output)
        ensures
            final(self)@ == old(self)@.declare(var@, value@),
    {
        if self.stack.len() > 0 {
            self.bind_in_frame(0, var, value);
        } else {
            self.bind_global(var, value);
        }
    }

    /// Declare-or-mutate: rebinds `var` in the nearest scope that binds it;
    /// where none does, binds it as `declare_var` does.
    pub fn set_var(&mut self, var: &str, value: Output)
        ensures
            final(self)@ == old(self)@.assign(var@, value@),
    {
        let n = self.stack.len();
        let mut i: usize = 0;
        while i < n
            invariant
                n == self.stack@.len(),
                0 <= i <= n,
                forall|d: int| 0 <= d < i ==> !(#[trigger] self@.frames[d]).contains_key(var@),
            ensures
                0 <= i <= n,
                forall|d: int| 0 <= d < i ==> !(#[trigger] self@.frames[d]).contains_key(var@),
                i < n ==> self@.frames[i as int].contains_key(var@),
            decreases n - i,
        {
            if self.stack[i].contains_key(var) {
                break ;
            }
            i += 1;
        }
        proof {
            lemma_first_holder_skips(self@.frames, var@, 0, i as int);
        }
        if i < n {
            self.bind_in_frame(i, var, value);
        } else if self.global.contains_key(var) {
            self.bind_global(var, value);
        } else {
            self.declare_var(var, value);
        }
    }
}

/// The first holder from `from` on binds the name, and no frame between
/// `from` and it does.
pub proof fn lemma_first_holder(frames: Seq<Bindings>, name: Seq<char>, from: int)
    requires
        0 <= from <= frames.len(),
    ensures
        from <= first_holder(frames, name, from) <= frames.len(),
        first_holder(frames, name, from) < frames.len() ==> frames[first_holder(
            frames,
            name,
            from,
        )].contains_key(name),
        forall|d: int|
            from <= d < first_holder(frames, name, from) ==> !(#[trigger] frames[d]).contains_key(
                name,
            ),
    decreases frames.len() - from,
{
    if from < frames.len() && !frames[from].contains_key(name) {
        lemma_first_holder(frames, name, from + 1);
    }
}

/// The first frame from `from` on that binds the name is the first holder.
pub proof fn lemma_first_holder_is(frames: Seq<Bindings>, name: Seq<char>, from: int, h: int)
    requires
        0 <= from <= h <= frames.len(),
        forall|d: int| from <= d < h ==> !(#[trigger] frames[d]).contains_key(name),
        h < frames.len() ==> frames[h].contains_key(name),
    ensures
        first_holder(frames, name, from) == h,
{
    lemma_first_holder_skips(frames, name, from, h);
}

/// After an assignment the name denotes the assigned value.
pub proof fn lemma_assign_then_lookup(stack: ScopeStackView, name: Seq<char>, value: OutputView)
    ensures
        stack.assign(name, value).lookup(name) == Some(value),
        stack.assign(name, value).frames.len() == stack.frames.len(),
{
    let h = stack.holder(name);
    let after = stack.assign(name, value);
    lemma_first_holder(stack.frames, name, 0);
    if h < stack.frames.len() || stack.global.contains_key(name) {
        lemma_first_holder_is(after.frames, name, 0, h);
    } else {
        lemma_first_holder_is(after.frames, name, 0, 0);
    }
}

/// An assignment to a name that is visible creates no binding: each frame
/// and the global bindings bind the name after it exactly if they did before.
pub proof fn lemma_assign_creates_no_shadow(
    stack: ScopeStackView,
    name: Seq<char>,
    value: OutputView,
)
    requires
        stack.lookup(name) is Some,
    ensures
        stack.assign(name, value).frames.len() == stack.frames.len(),
        forall|d: int|
            0 <= d < stack.frames.len() ==> (#[trigger] stack.assign(name, value).frames[d]).dom()
                == stack.frames[d].dom(),
        stack.assign(name, value).global.dom() == stack.global.dom(),
{
    let h = stack.holder(name);
    let after = stack.assign(name, value);
    lemma_first_holder(stack.frames, name, 0);
    assert forall|d: int| 0 <= d < stack.frames.len() implies (#[trigger] after.frames[d]).dom()
        == stack.frames[d].dom() by {
        assert(after.frames[d].dom() =~= stack.frames[d].dom());
    }
    assert(after.global.dom() =~= stack.global.dom());
}

/// An assignment to a name bound further out reaches that binding: where
/// the `n` innermost frames do not bind the name and the name is visible,
/// the name denotes the assigned value once those `n` frames are popped.
pub proof fn lemma_assign_reaches_outer(
    stack: ScopeStackView,
    name: Seq<char>,
    value: OutputView,
    n: int,
)
    requires
        0 <= n <= stack.holder(name),
        stack.lookup(name) is Some,
    ensures
        stack.assign(name, value).popped(n).lookup(name) == Some(value),
        stack.assign(name, value).popped(n).frames.len() == stack.frames.len() - n,
{
    let h = stack.holder(name);
    let after = stack.assign(name, value);
    let outer = after.popped(n);
    lemma_first_holder(stack.frames, name, 0);
    assert forall|d: int| 0 <= d < h - n implies !(#[trigger] outer.frames[d]).contains_key(
        name,
    ) by {
        assert(outer.frames[d] == stack.frames[d + n]);
    }
    lemma_first_holder_is(outer.frames, name, 0, h - n);
}

/// Pushing a frame and popping it again gives the stack back.
pub proof fn lemma_push_pop(stack: ScopeStackView)
    ensures
        stack.push().pop() == stack,
{
    assert(stack.push().pop().frames =~= stack.frames);
}

} // verus!
