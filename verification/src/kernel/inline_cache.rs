//! What a transaction remembers of the methods that it found.

use crate::kernel::dispatch::DispatchRelations;
use crate::kernel::metadata::RelationId;
use crate::value::{copy_value, copy_values, option_view, same_value, views, Value, ValueView};
use std::sync::Arc;
use vstd::prelude::*;

verus! {

/// How many calls and how many methods are remembered. The first that come are kept; when
/// all places are taken nothing is displaced.
pub const INLINE_DISPATCH_CACHE_CAPACITY: usize = 2;

/// How many calls a transaction remembers of those whose methods it found in what its snapshot
/// shows.
pub const SHARED_DISPATCH_CACHE_CAPACITY: usize = 256;

/// A call was made.
pub const POSITIONAL_DISPATCH_SEEN: u8 = 1;

/// Calls are remembered.
pub const POSITIONAL_DISPATCH_CACHED: u8 = 2;

/// Programs of methods may be remembered.
pub const METHOD_PROGRAM_ENABLED: u8 = 4;

/// Programs of methods are remembered.
pub const METHOD_PROGRAM_CACHED: u8 = 8;

/// The arguments of a call.
#[derive(Debug)]
pub enum PositionalDispatchArgs {
    Empty,
    One(Value),
    Many(Vec<Value>),
}

impl View for PositionalDispatchArgs {
    type V = Seq<ValueView>;

    open spec fn view(&self) -> Seq<ValueView> {
        match self {
            PositionalDispatchArgs::Empty => Seq::empty(),
            PositionalDispatchArgs::One(value) => seq![value@],
            PositionalDispatchArgs::Many(values) => views(values@),
        }
    }
}

/// Whether two lists of values are the same.
fn same_values(a: &[Value], b: &[Value]) -> (result: bool)
    ensures
        result == (views(a@) == views(b@)),
{
    if a.len() != b.len() {
        assert(views(a@).len() != views(b@).len());
        return false;
    }
    let mut i: usize = 0;
    while i < a.len()
        invariant
            i <= a@.len() == b@.len(),
            forall|j: int| 0 <= j < i ==> views(a@)[j] == #[trigger] views(b@)[j],
        decreases a@.len() - i,
    {
        assert(views(a@)[i as int] == a@[i as int]@);
        assert(views(b@)[i as int] == b@[i as int]@);
        if !same_value(&a[i], &b[i]) {
            return false;
        }
        i = i + 1;
    }
    assert(views(a@) =~= views(b@));
    true
}

impl PositionalDispatchArgs {
    /// The given arguments.
    pub fn new(args: &[Value]) -> (found: PositionalDispatchArgs)
        ensures
            found@ == views(args@),
    {
        if args.len() == 0 {
            assert(views(args@) =~= Seq::empty());
            PositionalDispatchArgs::Empty
        } else if args.len() == 1 {
            let value = copy_value(&args[0]);
            assert(views(args@) =~= seq![value@]);
            PositionalDispatchArgs::One(value)
        } else {
            PositionalDispatchArgs::Many(copy_values(args))
        }
    }

    /// Whether these are the given arguments.
    pub fn matches(&self, args: &[Value]) -> (result: bool)
        ensures
            result == (self@ == views(args@)),
    {
        match self {
            PositionalDispatchArgs::Empty => {
                proof {
                    if args@.len() == 0 {
                        assert(views(args@) =~= Seq::empty());
                    } else {
                        assert(views(args@).len() > 0);
                    }
                }
                args.len() == 0
            },
            PositionalDispatchArgs::One(value) => {
                if args.len() == 1 {
                    proof {
                        assert(views(args@) =~= seq![args@[0]@]);
                        assert(seq![value@][0] == value@);
                        assert(seq![args@[0]@][0] == args@[0]@);
                    }
                    same_value(value, &args[0])
                } else {
                    assert(views(args@).len() != seq![value@].len());
                    false
                }
            },
            PositionalDispatchArgs::Many(values) => same_values(values, args),
        }
    }
}

/// A call and the methods that were found for it.
pub struct PositionalDispatchCacheEntry {
    pub relations: DispatchRelations,
    pub selector: Value,
    pub args: PositionalDispatchArgs,
    pub methods: Arc<Vec<Value>>,
}

/// A call and its methods, apart from how they are stored.
pub struct CallView {
    pub relations: DispatchRelations,
    pub selector: ValueView,
    pub args: Seq<ValueView>,
    pub methods: Seq<ValueView>,
}

impl View for PositionalDispatchCacheEntry {
    type V = CallView;

    open spec fn view(&self) -> CallView {
        CallView {
            relations: self.relations,
            selector: self.selector@,
            args: self.args@,
            methods: views(self.methods@),
        }
    }
}

/// A method and the program that was found for it.
pub struct MethodProgramCacheEntry {
    pub relation: RelationId,
    pub method: Value,
    pub program: Option<Value>,
}

/// A method and its program, apart from how they are stored.
pub struct ProgramView {
    pub relation: u64,
    pub method: ValueView,
    pub program: Option<ValueView>,
}

impl View for MethodProgramCacheEntry {
    type V = ProgramView;

    open spec fn view(&self) -> ProgramView {
        ProgramView {
            relation: self.relation@,
            method: self.method@,
            program: option_view(self.program),
        }
    }
}

/// What a transaction remembers of the methods that it found, and those that it found in what
/// its snapshot shows.
pub struct TransactionDispatchCache {
    pub state: u8,
    pub positional: Vec<PositionalDispatchCacheEntry>,
    pub shared: Vec<PositionalDispatchCacheEntry>,
    pub method_program: Vec<MethodProgramCacheEntry>,
}

/// What is remembered, apart from how it is stored.
pub struct CacheView {
    pub state: u8,
    pub calls: Seq<CallView>,
    pub shared: Seq<CallView>,
    pub programs: Seq<ProgramView>,
}

impl View for TransactionDispatchCache {
    type V = CacheView;

    open spec fn view(&self) -> CacheView {
        CacheView {
            state: self.state,
            calls: self.positional@.map_values(|entry: PositionalDispatchCacheEntry| entry@),
            shared: self.shared@.map_values(|entry: PositionalDispatchCacheEntry| entry@),
            programs: self.method_program@.map_values(|entry: MethodProgramCacheEntry| entry@),
        }
    }
}

/// Whether a call is the one that is remembered.
pub open spec fn is_call(
    entry: CallView,
    relations: DispatchRelations,
    selector: ValueView,
    args: Seq<ValueView>,
) -> bool {
    entry.relations == relations && entry.selector == selector && entry.args == args
}

/// The place of the first entry for a call.
pub open spec fn first_call(
    calls: Seq<CallView>,
    relations: DispatchRelations,
    selector: ValueView,
    args: Seq<ValueView>,
) -> Option<int>
    decreases calls.len(),
{
    if calls.len() == 0 {
        None
    } else {
        match first_call(calls.drop_last(), relations, selector, args) {
            Some(i) => Some(i),
            None => if is_call(calls.last(), relations, selector, args) {
                Some(calls.len() - 1)
            } else {
                None
            },
        }
    }
}

/// The place of the first entry for a method.
pub open spec fn first_program(
    programs: Seq<ProgramView>,
    relation: u64,
    method: ValueView,
) -> Option<int>
    decreases programs.len(),
{
    if programs.len() == 0 {
        None
    } else {
        match first_program(programs.drop_last(), relation, method) {
            Some(i) => Some(i),
            None => if programs.last().relation == relation && programs.last().method == method {
                Some(programs.len() - 1)
            } else {
                None
            },
        }
    }
}

proof fn lemma_first_call(
    calls: Seq<CallView>,
    relations: DispatchRelations,
    selector: ValueView,
    args: Seq<ValueView>,
    n: int,
)
    requires
        0 <= n <= calls.len(),
        first_call(calls.take(n), relations, selector, args) is Some,
    ensures
        first_call(calls, relations, selector, args) == first_call(
            calls.take(n),
            relations,
            selector,
            args,
        ),
    decreases calls.len(),
{
    if n == calls.len() {
        assert(calls.take(n) =~= calls);
    } else {
        assert(calls.drop_last().take(n) =~= calls.take(n));
        lemma_first_call(calls.drop_last(), relations, selector, args, n);
    }
}

proof fn lemma_first_program(programs: Seq<ProgramView>, relation: u64, method: ValueView, n: int)
    requires
        0 <= n <= programs.len(),
        first_program(programs.take(n), relation, method) is Some,
    ensures
        first_program(programs, relation, method) == first_program(
            programs.take(n),
            relation,
            method,
        ),
    decreases programs.len(),
{
    if n == programs.len() {
        assert(programs.take(n) =~= programs);
    } else {
        assert(programs.drop_last().take(n) =~= programs.take(n));
        lemma_first_program(programs.drop_last(), relation, method, n);
    }
}

/// What is remembered once a call has been added, where there is room.
pub open spec fn with_call(calls: Seq<CallView>, call: CallView) -> Seq<CallView> {
    if calls.len() < INLINE_DISPATCH_CACHE_CAPACITY {
        calls.push(call)
    } else {
        calls
    }
}

impl TransactionDispatchCache {
    /// Nothing is remembered.
    pub fn new() -> (cache: TransactionDispatchCache)
        ensures
            cache@.state == 0,
            cache@.calls == Seq::<CallView>::empty(),
            cache@.shared == Seq::<CallView>::empty(),
            cache@.programs == Seq::<ProgramView>::empty(),
    {
        let cache = TransactionDispatchCache {
            state: 0,
            positional: Vec::new(),
            shared: Vec::new(),
            method_program: Vec::new(),
        };
        assert(cache@.calls =~= Seq::<CallView>::empty());
        assert(cache@.shared =~= Seq::<CallView>::empty());
        assert(cache@.programs =~= Seq::<ProgramView>::empty());
        cache
    }

    /// Forgets everything.
    pub fn clear(&mut self)
        ensures
            final(self)@.state == 0,
            final(self)@.calls == Seq::<CallView>::empty(),
            final(self)@.shared == Seq::<CallView>::empty(),
            final(self)@.programs == Seq::<ProgramView>::empty(),
    {
        *self = TransactionDispatchCache::new();
    }

    /// What is remembered of.
    pub fn state(&self) -> (state: u8)
        ensures
            state == self@.state,
    {
        self.state
    }

    /// Remembers that a call was made.
    pub fn mark_positional_seen(&mut self, state: u8)
        ensures
            final(self)@ == (CacheView { state: state | POSITIONAL_DISPATCH_SEEN, ..old(self)@ }),
    {
        self.state = state | POSITIONAL_DISPATCH_SEEN;
    }

    /// The methods that were found for a call.
    pub fn positional(
        &mut self,
        relations: DispatchRelations,
        selector: &Value,
        args: &[Value],
        state: u8,
    ) -> (found: Option<Arc<Vec<Value>>>)
        ensures
            match first_call(old(self)@.calls, relations, selector@, views(args@)) {
                Some(i) => {
                    &&& 0 <= i < old(self)@.calls.len()
                    &&& is_call(old(self)@.calls[i], relations, selector@, views(args@))
                    &&& found matches Some(methods) && views(methods@)
                        == old(self)@.calls[i].methods && methods
                        == old(self).positional@[i].methods
                    &&& final(self)@ == (CacheView {
                        state: state | METHOD_PROGRAM_ENABLED,
                        ..old(self)@
                    })
                },
                None => found is None && *final(self) == *old(self),
            },
    {
        let ghost calls = self@.calls;
        let mut i: usize = 0;
        assert(calls.take(0) =~= Seq::empty());
        while i < self.positional.len()
            invariant
                i <= self.positional@.len(),
                *self == *old(self),
                calls == self@.calls,
                calls.len() == self.positional@.len(),
                first_call(calls.take(i as int), relations, selector@, views(args@)) is None,
            decreases self.positional@.len() - i,
        {
            proof {
                assert(calls[i as int] == self.positional@[i as int]@);
                assert(calls.take(i + 1).drop_last() =~= calls.take(i as int));
                assert(calls.take(i + 1).last() == calls[i as int]);
            }
            if self.positional[i].relations == relations && same_value(
                &self.positional[i].selector,
                selector,
            ) && self.positional[i].args.matches(args) {
                proof {
                    lemma_first_call(calls, relations, selector@, views(args@), i + 1);
                }
                let methods = self.positional[i].methods.clone();
                self.state = state | METHOD_PROGRAM_ENABLED;
                return Some(methods);
            }
            i = i + 1;
        }
        assert(calls.take(i as int) =~= calls);
        None
    }

    /// Remembers a call, where there is room.
    pub fn remember_positional(
        &mut self,
        relations: DispatchRelations,
        selector: &Value,
        args: &[Value],
        methods: Arc<Vec<Value>>,
    )
        ensures
            final(self)@ == (CacheView {
                calls: with_call(
                    old(self)@.calls,
                    CallView {
                        relations,
                        selector: selector@,
                        args: views(args@),
                        methods: views(methods@),
                    },
                ),
                ..old(self)@
            }),
    {
        let ghost before = self@;
        if self.positional.len() < INLINE_DISPATCH_CACHE_CAPACITY {
            let entry = PositionalDispatchCacheEntry {
                relations,
                selector: copy_value(selector),
                args: PositionalDispatchArgs::new(args),
                methods,
            };
            let ghost view = entry@;
            self.positional.push(entry);
            assert(self@.calls =~= before.calls.push(view));
        }
        assert(self@.programs == before.programs);
    }

    /// Remembers a call, and that calls are remembered.
    pub fn promote_positional(
        &mut self,
        relations: DispatchRelations,
        selector: &Value,
        args: &[Value],
        methods: Arc<Vec<Value>>,
        state: u8,
    )
        ensures
            final(self)@ == (CacheView {
                state: state | POSITIONAL_DISPATCH_CACHED,
                calls: with_call(
                    old(self)@.calls,
                    CallView {
                        relations,
                        selector: selector@,
                        args: views(args@),
                        methods: views(methods@),
                    },
                ),
                ..old(self)@
            }),
    {
        self.remember_positional(relations, selector, args, methods);
        self.state = state | POSITIONAL_DISPATCH_CACHED;
    }

    /// The methods that were found for a call in what the snapshot shows.
    pub fn shared_positional(
        &self,
        relations: DispatchRelations,
        selector: &Value,
        args: &[Value],
    ) -> (found: Option<Arc<Vec<Value>>>)
        ensures
            match first_call(self@.shared, relations, selector@, views(args@)) {
                Some(i) => {
                    &&& 0 <= i < self@.shared.len()
                    &&& is_call(self@.shared[i], relations, selector@, views(args@))
                    &&& found matches Some(methods) && views(methods@) == self@.shared[i].methods
                        && methods == self.shared@[i].methods
                },
                None => found is None,
            },
    {
        let ghost calls = self@.shared;
        let mut i: usize = 0;
        assert(calls.take(0) =~= Seq::empty());
        while i < self.shared.len()
            invariant
                i <= self.shared@.len(),
                calls == self@.shared,
                calls.len() == self.shared@.len(),
                first_call(calls.take(i as int), relations, selector@, views(args@)) is None,
            decreases self.shared@.len() - i,
        {
            proof {
                assert(calls[i as int] == self.shared@[i as int]@);
                assert(calls.take(i + 1).drop_last() =~= calls.take(i as int));
                assert(calls.take(i + 1).last() == calls[i as int]);
            }
            if self.shared[i].relations == relations && same_value(
                &self.shared[i].selector,
                selector,
            ) && self.shared[i].args.matches(args) {
                proof {
                    lemma_first_call(calls, relations, selector@, views(args@), i + 1);
                }
                return Some(self.shared[i].methods.clone());
            }
            i = i + 1;
        }
        assert(calls.take(i as int) =~= calls);
        None
    }

    /// Remembers a call whose methods were found in what the snapshot shows, where there is room.
    pub fn share_positional(
        &mut self,
        relations: DispatchRelations,
        selector: &Value,
        args: &[Value],
        methods: Arc<Vec<Value>>,
    )
        ensures
            final(self)@ == (CacheView {
                shared: if old(self)@.shared.len() < SHARED_DISPATCH_CACHE_CAPACITY {
                    old(self)@.shared.push(
                        CallView {
                            relations,
                            selector: selector@,
                            args: views(args@),
                            methods: views(methods@),
                        },
                    )
                } else {
                    old(self)@.shared
                },
                ..old(self)@
            }),
    {
        let ghost before = self@;
        if self.shared.len() < SHARED_DISPATCH_CACHE_CAPACITY {
            let entry = PositionalDispatchCacheEntry {
                relations,
                selector: copy_value(selector),
                args: PositionalDispatchArgs::new(args),
                methods,
            };
            let ghost view = entry@;
            self.shared.push(entry);
            assert(self@.shared =~= before.shared.push(view));
        }
        assert(self@.calls == before.calls);
        assert(self@.programs == before.programs);
    }

    /// The program that was found for a method.
    pub fn method_program(&self, relation: RelationId, method: &Value) -> (found: Option<
        Option<Value>,
    >)
        ensures
            match first_program(self@.programs, relation@, method@) {
                Some(i) => {
                    &&& 0 <= i < self@.programs.len()
                    &&& self@.programs[i].relation == relation@
                    &&& self@.programs[i].method == method@
                    &&& found matches Some(program) && option_view(program)
                        == self@.programs[i].program
                },
                None => found is None,
            },
    {
        let ghost programs = self@.programs;
        let mut i: usize = 0;
        assert(programs.take(0) =~= Seq::empty());
        while i < self.method_program.len()
            invariant
                i <= self.method_program@.len(),
                programs == self@.programs,
                programs.len() == self.method_program@.len(),
                first_program(programs.take(i as int), relation@, method@) is None,
            decreases self.method_program@.len() - i,
        {
            proof {
                assert(programs[i as int] == self.method_program@[i as int]@);
                assert(programs.take(i + 1).drop_last() =~= programs.take(i as int));
                assert(programs.take(i + 1).last() == programs[i as int]);
            }
            if self.method_program[i].relation.same(&relation) && same_value(
                &self.method_program[i].method,
                method,
            ) {
                proof {
                    lemma_first_program(programs, relation@, method@, i + 1);
                }
                return Some(copy_program(&self.method_program[i].program));
            }
            i = i + 1;
        }
        assert(programs.take(i as int) =~= programs);
        None
    }

    /// Remembers the program of a method, where that is enabled and there is room.
    pub fn consider_method_program(
        &mut self,
        relation: RelationId,
        method: &Value,
        program: Option<Value>,
        state: u8,
    )
        ensures
            final(self)@ == if state & METHOD_PROGRAM_ENABLED == 0 || old(self)@.programs.len()
                >= INLINE_DISPATCH_CACHE_CAPACITY {
                old(self)@
            } else {
                CacheView {
                    state: state | METHOD_PROGRAM_CACHED,
                    programs: old(self)@.programs.push(
                        ProgramView {
                            relation: relation@,
                            method: method@,
                            program: option_view(program),
                        },
                    ),
                    ..old(self)@
                }
            },
    {
        let ghost before = self@;
        if state & METHOD_PROGRAM_ENABLED == 0 {
            return ;
        }
        if self.method_program.len() >= INLINE_DISPATCH_CACHE_CAPACITY {
            return ;
        }
        let entry = MethodProgramCacheEntry { relation, method: copy_value(method), program };
        let ghost view = entry@;
        self.method_program.push(entry);
        self.state = state | METHOD_PROGRAM_CACHED;
        assert(self@.programs =~= before.programs.push(view));
        assert(self@.calls == before.calls);
    }
}

/// A copy of an optional program.
pub fn copy_program(program: &Option<Value>) -> (copy: Option<Value>)
    ensures
        option_view(copy) == option_view(*program),
{
    match program {
        Some(value) => Some(copy_value(value)),
        None => None,
    }
}

/// When all places are taken, remembering another call changes nothing.
pub proof fn law_full_cache_keeps_its_calls(calls: Seq<CallView>, call: CallView)
    requires
        calls.len() >= INLINE_DISPATCH_CACHE_CAPACITY,
    ensures
        with_call(calls, call) == calls,
{
}

} // verus!
