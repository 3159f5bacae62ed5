//! Lowering of a module to QBE text: nested scopes, unique temporaries, type
//! lowering, statement and expression lowering.
use crate::ast::{Expression, Function, Module, Statement, Type, Variable};
use crate::qbe::{
    abi_type, append_to_last_block, function_text, lemma_append_empty, lemma_append_twice,
    BlockModel, FunctionModel, InstrModel, IrType, QbeFunction, QbeInstr, QbeTemporary, QbeType,
    QbeValue, StmtModel, ValueModel,
};
use crate::text::{decimal, decimal_text, lemma_decimal_injective};
use vstd::prelude::*;

verus! {

/// Why lowering failed.
#[derive(Debug, Clone)]
pub enum GenError {
    /// A function argument has no declared type
    MissingType,
    /// A name is declared twice in one scope frame
    Redeclaration(String),
    /// No active scope frame binds the name
    Undefined(String),
    /// The type has no lowering (yet)
    UnsupportedType,
}

/// What a `GenError` stands for, with names as characters.
pub enum GenErrorModel {
    MissingType,
    Redeclaration(Seq<char>),
    Undefined(Seq<char>),
    UnsupportedType,
}

impl View for GenError {
    type V = GenErrorModel;

    open spec fn view(&self) -> GenErrorModel {
        match self {
            GenError::MissingType => GenErrorModel::MissingType,
            GenError::Redeclaration(n) => GenErrorModel::Redeclaration(n@),
            GenError::Undefined(n) => GenErrorModel::Undefined(n@),
            GenError::UnsupportedType => GenErrorModel::UnsupportedType,
        }
    }
}

/// The name of the `k`-th temporary handed out: `tmp.k`.
pub open spec fn temp_name(k: nat) -> Seq<char> {
    seq!['t', 'm', 'p', '.'] + decimal(k)
}

/// Distinct temporaries have distinct names.
pub proof fn lemma_temp_name_injective(a: nat, b: nat)
    requires
        temp_name(a) == temp_name(b),
    ensures
        a == b,
{
    assert(temp_name(a).skip(4) =~= decimal(a));
    assert(temp_name(b).skip(4) =~= decimal(b));
    lemma_decimal_injective(a, b);
}

/// Every temporary bound in `frames` is one of the first `counter` handed
/// out.
pub open spec fn bindings_issued(frames: Seq<Map<Seq<char>, Seq<char>>>, counter: nat) -> bool {
    forall|f: int, x: Seq<char>|
        0 <= f < frames.len() && #[trigger] frames[f].contains_key(x) ==> exists|k: nat|
            1 <= k <= counter && frames[f][x] == #[trigger] temp_name(k)
}

/// The bindings of one scope frame, as a map from name to temporary.
pub open spec fn frame_map(entries: Seq<(String, QbeTemporary)>) -> Map<Seq<char>, Seq<char>>
    decreases entries.len(),
{
    if entries.len() == 0 {
        Map::empty()
    } else {
        frame_map(entries.drop_last()).insert(entries.last().0@, entries.last().1@)
    }
}

/// The binding of `name` in the innermost frame that binds it.
pub open spec fn lookup(frames: Seq<Map<Seq<char>, Seq<char>>>, name: Seq<char>) -> Option<Seq<char>>
    decreases frames.len(),
{
    if frames.len() == 0 {
        None
    } else if frames.last().contains_key(name) {
        Some(frames.last()[name])
    } else {
        lookup(frames.drop_last(), name)
    }
}

/// A result seen through the views of its success value and its error.
pub open spec fn result_view<T: View>(r: Result<T, GenError>) -> Result<T::V, GenErrorModel> {
    match r {
        Ok(v) => Ok(v@),
        Err(e) => Err(e@),
    }
}

/// Type lowering: `Int` is a word, `Bool` a byte; `Any` and the aggregate
/// types have no lowering.
pub open spec fn type_lowering(t: Type) -> Result<IrType, GenErrorModel> {
    match t {
        Type::Int => Ok(IrType::Word),
        Type::Bool => Ok(IrType::Byte),
        _ => Err(GenErrorModel::UnsupportedType),
    }
}

/// How many temporaries lowering `s` hands out: one per integer literal.
pub open spec fn statement_temps(s: Statement) -> nat
    decreases s, 0int,
{
    match s {
        Statement::Block(v) => list_temps(v@, v@.len() as int),
        Statement::Return(Some(_)) => 1,
        Statement::Return(None) => 0,
    }
}

/// How many temporaries lowering the first `n` statements of `q` hands out.
pub open spec fn list_temps(q: Seq<Statement>, n: int) -> nat
    decreases q, n,
{
    if n <= 0 || n > q.len() {
        0
    } else {
        list_temps(q, n - 1) + statement_temps(q[n - 1])
    }
}

/// The statements that lowering `s` appends to the current block, where `c`
/// temporaries have been handed out before.
pub open spec fn statement_lowering(s: Statement, c: nat) -> Seq<StmtModel>
    decreases s, 0int,
{
    match s {
        Statement::Block(v) => list_lowering(v@, v@.len() as int, c),
        Statement::Return(None) => seq![StmtModel::Volatile(InstrModel::Ret(None))],
        Statement::Return(Some(Expression::Int(n))) => seq![
            StmtModel::Assign(
                temp_name(c + 1),
                IrType::Word,
                InstrModel::Copy(ValueModel::Const(n as nat)),
            ),
            StmtModel::Volatile(InstrModel::Ret(Some(temp_name(c + 1)))),
        ],
    }
}

/// The statements that lowering the first `n` statements of `q` appends.
pub open spec fn list_lowering(q: Seq<Statement>, n: int, c: nat) -> Seq<StmtModel>
    decreases q, n,
{
    if n <= 0 || n > q.len() {
        seq![]
    } else {
        list_lowering(q, n - 1, c) + statement_lowering(q[n - 1], c + list_temps(q, n - 1))
    }
}

/// The error that argument `k` raises: a missing or unlowerable type, or a
/// name that an earlier argument of the same function took.
pub open spec fn argument_error(args: Seq<Variable>, k: int) -> Option<GenErrorModel> {
    match args[k].ty {
        None => Some(GenErrorModel::MissingType),
        Some(t) => match type_lowering(t) {
            Err(e) => Some(e),
            Ok(_) => if exists|j: int| 0 <= j < k && #[trigger] args[j].name@ == args[k].name@ {
                Some(GenErrorModel::Redeclaration(args[k].name@))
            } else {
                None
            },
        },
    }
}

/// The first error among the first `n` arguments.
pub open spec fn arguments_error(args: Seq<Variable>, n: int) -> Option<GenErrorModel>
    decreases n,
{
    if n <= 0 {
        None
    } else {
        match arguments_error(args, n - 1) {
            Some(e) => Some(e),
            None => argument_error(args, n - 1),
        }
    }
}

/// The ABI type of an argument whose type lowers.
pub open spec fn argument_type(a: Variable) -> IrType {
    match a.ty {
        Some(t) => match type_lowering(t) {
            Ok(x) => abi_type(x),
            Err(_) => IrType::Word,
        },
        None => IrType::Word,
    }
}

/// The ABI return type, absent for a function that returns no value.
pub open spec fn return_lowering(t: Option<Type>) -> Result<Option<IrType>, GenErrorModel> {
    match t {
        None => Ok(None),
        Some(t) => match type_lowering(t) {
            Ok(x) => Ok(Some(abi_type(x))),
            Err(e) => Err(e),
        },
    }
}

/// How many temporaries lowering `f` hands out.
pub open spec fn function_temps(f: Function) -> nat {
    f.arguments@.len() + statement_temps(f.body)
}

pub open spec fn start_label() -> Seq<char> {
    seq!['s', 't', 'a', 'r', 't']
}

/// Lowering of `f`, where `c` temporaries have been handed out before: an
/// exported function whose arguments get the next temporaries in order, with
/// one block `start` that holds the body's statements and, where no return
/// type is declared, a closing `ret`.
pub open spec fn function_lowering(f: Function, c: nat) -> Result<FunctionModel, GenErrorModel> {
    let args = f.arguments@;
    match arguments_error(args, args.len() as int) {
        Some(e) => Err(e),
        None => match return_lowering(f.return_type) {
            Err(e) => Err(e),
            Ok(ret) => Ok(
                FunctionModel {
                    exported: true,
                    name: f.name@,
                    arguments: Seq::new(
                        args.len(),
                        |k: int| (argument_type(args[k]), temp_name((c + k + 1) as nat)),
                    ),
                    return_ty: ret,
                    blocks: seq![
                        BlockModel {
                            label: start_label(),
                            instructions: statement_lowering(f.body, c + args.len()) + if f.return_type
                                is None {
                                seq![StmtModel::Volatile(InstrModel::Ret(None))]
                            } else {
                                seq![]
                            },
                        },
                    ],
                },
            ),
        },
    }
}

/// How many temporaries the first `n` functions hand out.
pub open spec fn functions_temps(q: Seq<Function>, n: int) -> nat
    decreases n,
{
    if n <= 0 {
        0
    } else {
        functions_temps(q, n - 1) + function_temps(q[n - 1])
    }
}

/// The text of the first `n` functions, each followed by a line break, or
/// the first error among them.
pub open spec fn module_lowering(q: Seq<Function>, n: int) -> Result<Seq<char>, GenErrorModel>
    decreases n,
{
    if n <= 0 {
        Ok(seq![])
    } else {
        match module_lowering(q, n - 1) {
            Err(e) => Err(e),
            Ok(t) => match function_lowering(q[n - 1], functions_temps(q, n - 1)) {
                Err(e) => Err(e),
                Ok(f) => Ok(t + function_text(f) + seq!['\n']),
            },
        }
    }
}

/// A name is bound in a frame iff some entry carries it, and its binding is
/// that of the last such entry.
proof fn lemma_frame_map_entry(entries: Seq<(String, QbeTemporary)>, k: Seq<char>)
    ensures
        frame_map(entries).contains_key(k) <==> exists|j: int|
            0 <= j < entries.len() && #[trigger] entries[j].0@ == k,
        forall|j: int|
            0 <= j < entries.len() && entries[j].0@ == k && (forall|m: int|
                j < m < entries.len() ==> #[trigger] entries[m].0@ != k) ==> frame_map(entries)[k]
                == #[trigger] entries[j].1@,
    decreases entries.len(),
{
    if entries.len() > 0 {
        let init = entries.drop_last();
        lemma_frame_map_entry(init, k);
        assert forall|j: int| 0 <= j < init.len() implies init[j] == entries[j] by {}
        if frame_map(entries).contains_key(k) && entries.last().0@ != k {
            let j = choose|j: int| 0 <= j < init.len() && #[trigger] init[j].0@ == k;
            assert(entries[j].0@ == k);
        }
        if exists|j: int| 0 <= j < entries.len() && #[trigger] entries[j].0@ == k {
            let j = choose|j: int| 0 <= j < entries.len() && #[trigger] entries[j].0@ == k;
            if j < init.len() {
                assert(init[j].0@ == k);
            }
        }
    }
}

/// Where every frame from `f` up leaves `k` unbound, lookup goes by the
/// frames below `f`.
proof fn lemma_lookup_below(frames: Seq<Map<Seq<char>, Seq<char>>>, k: Seq<char>, f: int)
    requires
        0 <= f <= frames.len(),
        forall|g: int| f <= g < frames.len() ==> !(#[trigger] frames[g]).contains_key(k),
    ensures
        lookup(frames, k) == lookup(frames.take(f), k),
    decreases frames.len(),
{
    if frames.len() > f {
        lemma_lookup_below(frames.drop_last(), k, f);
        assert(frames.drop_last().take(f) =~= frames.take(f));
    } else {
        assert(frames.take(f) =~= frames);
    }
}

proof fn lemma_list_temps_monotone(q: Seq<Statement>, i: int, n: int)
    requires
        0 <= i <= n <= q.len(),
    ensures
        list_temps(q, i) <= list_temps(q, n),
    decreases n - i,
{
    if i < n {
        lemma_list_temps_monotone(q, i, n - 1);
    }
}

proof fn lemma_first_argument_error(args: Seq<Variable>, i: int, n: int)
    requires
        0 <= i < n,
        arguments_error(args, i) is None,
        argument_error(args, i) is Some,
    ensures
        arguments_error(args, n) == argument_error(args, i),
    decreases n - i,
{
    if n > i + 1 {
        lemma_first_argument_error(args, i, n - 1);
    }
}

proof fn lemma_functions_temps_monotone(q: Seq<Function>, i: int, n: int)
    requires
        0 <= i <= n,
    ensures
        functions_temps(q, i) <= functions_temps(q, n),
    decreases n - i,
{
    if i < n {
        lemma_functions_temps_monotone(q, i, n - 1);
    }
}

proof fn lemma_module_error_stays(q: Seq<Function>, i: int, n: int)
    requires
        0 <= i <= n,
        module_lowering(q, i) is Err,
    ensures
        module_lowering(q, n) == module_lowering(q, i),
    decreases n - i,
{
    if i < n {
        lemma_module_error_stays(q, i, n - 1);
    }
}

/// Finds the entry that binds `key` in one frame.
fn find_in_frame(entries: &Vec<(String, QbeTemporary)>, key: &String) -> (r: Option<usize>)
    ensures
        match r {
            Some(j) => j < entries@.len() && entries@[j as int].0@ == key@
                && frame_map(entries@).contains_key(key@)
                && frame_map(entries@)[key@] == entries@[j as int].1@,
            None => !frame_map(entries@).contains_key(key@),
        },
{
    let mut j: usize = entries.len();
    while j > 0
        invariant
            j <= entries@.len(),
            forall|m: int| j <= m < entries@.len() ==> #[trigger] entries@[m].0@ != key@,
        decreases j,
    {
        if entries[j - 1].0 == *key {
            proof {
                lemma_frame_map_entry(entries@, key@);
            }
            return Some(j - 1);
        }
        j = j - 1;
    }
    proof {
        lemma_frame_map_entry(entries@, key@);
    }
    None
}

/// Lowers a module: owns the counter of temporaries and the stack of scope
/// frames.
pub struct QbeGenerator {
    /// Counter for unique temporary names
    tmp_counter: u64,
    /// Block-scoped variable -> temporary mappings, innermost last
    scopes: Vec<Vec<(String, QbeTemporary)>>,
}

impl QbeGenerator {
    /// How many temporaries have been handed out.
    pub closed spec fn counter(&self) -> nat {
        self.tmp_counter as nat
    }

    /// The scope frames, innermost last.
    pub closed spec fn frames(&self) -> Seq<Map<Seq<char>, Seq<char>>> {
        self.scopes@.map_values(|e: Vec<(String, QbeTemporary)>| frame_map(e@))
    }

    /// No frame holds two bindings of one name, and every bound temporary
    /// has been handed out already.
    pub closed spec fn wf(&self) -> bool {
        &&& forall|f: int, i: int, j: int|
            0 <= f < self.scopes@.len() && 0 <= i < j < self.scopes@[f]@.len()
                ==> #[trigger] self.scopes@[f]@[i].0@ != #[trigger] self.scopes@[f]@[j].0@
        &&& bindings_issued(self.frames(), self.counter())
    }

    /// The counter of temporaries is a 64-bit number.
    pub proof fn lemma_counter_bound(&self)
        ensures
            self.counter() <= u64::MAX,
    {
    }

    /// A generator with no frames and no temporaries handed out.
    pub fn new() -> (r: Self)
        ensures
            r.wf(),
            r.counter() == 0,
            r.frames() == Seq::<Map<Seq<char>, Seq<char>>>::empty(),
    {
        let r = QbeGenerator { tmp_counter: 0, scopes: Vec::new() };
        assert(r.frames() =~= Seq::<Map<Seq<char>, Seq<char>>>::empty());
        r
    }

    /// Opens a new innermost scope frame.
    pub fn push_scope(&mut self)
        requires
            old(self).wf(),
        ensures
            final(self).wf(),
            final(self).counter() == old(self).counter(),
            final(self).frames() == old(self).frames().push(Map::empty()),
    {
        self.scopes.push(Vec::new());
        assert(final(self).frames() =~= old(self).frames().push(Map::empty()));
    }

    /// Closes the innermost scope frame, if there is one.
    pub fn pop_scope(&mut self)
        requires
            old(self).wf(),
        ensures
            final(self).wf(),
            final(self).counter() == old(self).counter(),
            final(self).frames() == if old(self).frames().len() == 0 {
                old(self).frames()
            } else {
                old(self).frames().drop_last()
            },
    {
        if self.scopes.len() > 0 {
            let _ = self.scopes.pop();
            assert(final(self).frames() =~= old(self).frames().drop_last());
        }
    }

    /// Returns a new temporary bound to `name` in the innermost frame; fails
    /// where that frame binds `name` already (outer frames do not count).
    pub fn new_var(&mut self, name: &str) -> (r: Result<QbeTemporary, GenError>)
        requires
            old(self).wf(),
            old(self).frames().len() > 0,
            old(self).counter() < u64::MAX,
        ensures
            final(self).wf(),
            old(self).frames().last().contains_key(name@) ==> {
                &&& r matches Err(e) && e@ == GenErrorModel::Redeclaration(name@)
                &&& final(self).counter() == old(self).counter()
                &&& final(self).frames() == old(self).frames()
            },
            r matches Ok(t) ==> forall|f: int, x: Seq<char>|
                0 <= f < old(self).frames().len() && #[trigger] old(self).frames()[f].contains_key(x)
                    ==> old(self).frames()[f][x] != t@,
            !old(self).frames().last().contains_key(name@) ==> {
                &&& r matches Ok(t) && t@ == temp_name(final(self).counter())
                    && final(self).frames() == old(self).frames().update(
                    old(self).frames().len() - 1,
                    old(self).frames().last().insert(name@, t@),
                )
                &&& final(self).counter() == old(self).counter() + 1
            },
    {
        let key = String::from_str(name);
        let last: usize = self.scopes.len() - 1;
        assert(old(self).frames().last() == frame_map(self.scopes@[last as int]@));
        match find_in_frame(&self.scopes[last], &key) {
            Some(_) => {
                return Err(GenError::Redeclaration(key));
            },
            None => {},
        }
        let tmp = self.new_temporary();
        let ghost pre = self.scopes@;
        let mut frame = self.scopes.pop().unwrap();
        let ghost e = frame@;
        proof {
            lemma_frame_map_entry(e, key@);
        }
        frame.push((key, tmp.duplicate()));
        proof {
            assert(frame@.drop_last() =~= e);
            assert forall|i: int, j: int| 0 <= i < j < frame@.len() implies #[trigger] frame@[i].0@
                != #[trigger] frame@[j].0@ by {
                if j == frame@.len() - 1 {
                    assert(e[i].0@ == frame@[i].0@);
                } else {
                    assert(pre[last as int]@[i] == frame@[i]);
                    assert(pre[last as int]@[j] == frame@[j]);
                }
            }
        }
        self.scopes.push(frame);
        proof {
            assert(final(self).frames() =~= old(self).frames().update(
                old(self).frames().len() - 1,
                old(self).frames().last().insert(name@, tmp@),
            ));
            assert forall|f: int, i: int, j: int|
                0 <= f < self.scopes@.len() && 0 <= i < j < self.scopes@[f]@.len()
                    implies #[trigger] self.scopes@[f]@[i].0@ != #[trigger] self.scopes@[f]@[j].0@ by {
                if f < last {
                    assert(self.scopes@[f] == pre[f]);
                }
            }
            let c = old(self).counter();
            let old_frames = old(self).frames();
            assert forall|f: int, x: Seq<char>|
                0 <= f < old_frames.len() && #[trigger] old_frames[f].contains_key(x)
                    implies old_frames[f][x] != tmp@ by {
                let k = choose|k: nat| 1 <= k <= c && old_frames[f][x] == #[trigger] temp_name(k);
                if old_frames[f][x] == tmp@ {
                    lemma_temp_name_injective(k, c + 1);
                }
            }
            let fr = self.frames();
            assert forall|f: int, x: Seq<char>|
                0 <= f < fr.len() && #[trigger] fr[f].contains_key(x) implies exists|k: nat|
                    1 <= k <= self.counter() && fr[f][x] == #[trigger] temp_name(k) by {
                if f == last && x == name@ {
                    assert(fr[f][x] == temp_name(c + 1));
                } else {
                    assert(old_frames[f].contains_key(x));
                    let k = choose|k: nat|
                        1 <= k <= c && old_frames[f][x] == #[trigger] temp_name(k);
                    assert(fr[f][x] == temp_name(k));
                }
            }
        }
        Ok(tmp)
    }

    /// Returns the temporary bound to `name` in the innermost frame that
    /// binds it.
    pub fn get_var(&self, name: &str) -> (r: Result<QbeTemporary, GenError>)
        ensures
            match lookup(self.frames(), name@) {
                Some(t) => r matches Ok(v) && v@ == t,
                None => r matches Err(e) && e@ == GenErrorModel::Undefined(name@),
            },
    {
        let key = String::from_str(name);
        let mut f: usize = self.scopes.len();
        while f > 0
            invariant
                f <= self.scopes@.len(),
                key@ == name@,
                forall|g: int| f <= g < self.frames().len() ==> !(#[trigger] self.frames()[g]).contains_key(key@),
            decreases f,
        {
            match find_in_frame(&self.scopes[f - 1], &key) {
                Some(j) => {
                    proof {
                        let fr = self.frames();
                        lemma_lookup_below(fr, key@, f as int);
                        let below = fr.take(f as int);
                        assert(below.last() == fr[f - 1]);
                        assert(below.drop_last() =~= fr.take(f - 1));
                    }
                    return Ok(self.scopes[f - 1][j].1.duplicate());
                },
                None => {},
            }
            f = f - 1;
        }
        proof {
            lemma_lookup_below(self.frames(), key@, 0);
            assert(self.frames().take(0) =~= Seq::<Map<Seq<char>, Seq<char>>>::empty());
        }
        Err(GenError::Undefined(key))
    }

    /// Lowers a module to QBE text, one function after another; the first
    /// function that fails to lower fails the whole module.
    pub fn generate(prog: &Module) -> (r: Result<String, GenError>)
        requires
            functions_temps(prog.functions@, prog.functions@.len() as int) <= u64::MAX,
        ensures
            result_view(r) == module_lowering(prog.functions@, prog.functions@.len() as int),
    {
        let ghost q = prog.functions@;
        let mut generator = QbeGenerator::new();
        let mut buf = String::new();
        let mut i: usize = 0;
        while i < prog.functions.len()
            invariant
                q == prog.functions@,
                i <= q.len(),
                generator.wf(),
                generator.frames() == Seq::<Map<Seq<char>, Seq<char>>>::empty(),
                generator.counter() == functions_temps(q, i as int),
                functions_temps(q, q.len() as int) <= u64::MAX,
                module_lowering(q, i as int) == Ok::<Seq<char>, GenErrorModel>(buf@),
            decreases q.len() - i,
        {
            proof {
                lemma_functions_temps_monotone(q, i as int + 1, q.len() as int);
            }
            match generator.generate_function(&prog.functions[i]) {
                Ok(func) => {
                    let ghost start = buf@;
                    let text = func.render();
                    buf.append(text.as_str());
                    proof {
                        reveal_strlit("\n");
                    }
                    buf.append("\n");
                    proof {
                        assert(function_lowering(q[i as int], functions_temps(q, i as int)) == Ok::<
                            FunctionModel,
                            GenErrorModel,
                        >(func@));
                        assert(buf@ == start + function_text(func@) + seq!['\n']);
                    }
                },
                Err(e) => {
                    proof {
                        lemma_module_error_stays(q, i as int + 1, q.len() as int);
                    }
                    return Err(e);
                },
            }
            i = i + 1;
        }
        Ok(buf)
    }

    /// Lowers one function: its arguments are bound in a frame of their own,
    /// its body goes into the block `start`. A function without a declared
    /// return type always gets a closing `ret`, also where its body ends in
    /// one already. The argument frame is popped on every exit, errors
    /// included.
    pub fn generate_function(&mut self, func: &Function) -> (r: Result<QbeFunction, GenError>)
        requires
            old(self).wf(),
            old(self).counter() + function_temps(*func) <= u64::MAX,
        ensures
            final(self).wf(),
            final(self).frames() == old(self).frames(),
            result_view(r) == function_lowering(*func, old(self).counter()),
            r is Ok ==> final(self).counter() == old(self).counter() + function_temps(*func),
    {
        let ghost c0 = self.counter();
        let ghost outer = self.frames();
        let ghost args = func.arguments@;
        self.push_scope();
        let mut arguments: Vec<(QbeType, QbeTemporary)> = Vec::new();
        let mut i: usize = 0;
        while i < func.arguments.len()
            invariant
                args == func.arguments@,
                outer == old(self).frames(),
                c0 == old(self).counter(),
                i <= args.len(),
                self.wf(),
                self.counter() == c0 + i,
                c0 + function_temps(*func) <= u64::MAX,
                self.frames().len() == outer.len() + 1,
                self.frames().drop_last() == outer,
                forall|x: Seq<char>|
                    self.frames().last().contains_key(x) <==> exists|j: int|
                        0 <= j < i && #[trigger] args[j].name@ == x,
                arguments_error(args, i as int) is None,
                arguments@.map_values(|a: (QbeType, QbeTemporary)| crate::qbe::argument_model(a))
                    == Seq::new(
                    i as nat,
                    |k: int| (argument_type(args[k]), temp_name((c0 + k + 1) as nat)),
                ),
            decreases args.len() - i,
        {
            let arg = &func.arguments[i];
            let ty = match &arg.ty {
                Some(t) => t,
                None => {
                    self.pop_scope();
                    proof {
                        assert(self.frames() =~= outer);
                        lemma_first_argument_error(args, i as int, args.len() as int);
                    }
                    return Err(GenError::MissingType);
                },
            };
            let qty = match self.get_type(ty) {
                Ok(t) => t.into_abi(),
                Err(e) => {
                    self.pop_scope();
                    proof {
                        assert(self.frames() =~= outer);
                        lemma_first_argument_error(args, i as int, args.len() as int);
                    }
                    return Err(e);
                },
            };
            let ghost before = self.frames();
            let tmp = match self.new_var(arg.name.as_str()) {
                Ok(t) => t,
                Err(e) => {
                    self.pop_scope();
                    proof {
                        assert(self.frames() =~= outer);
                        lemma_first_argument_error(args, i as int, args.len() as int);
                    }
                    return Err(e);
                },
            };
            let ghost prev = arguments@;
            proof {
                assert(qty@ == argument_type(args[i as int]));
                assert(tmp@ == temp_name((c0 + i + 1) as nat));
            }
            arguments.push((qty, tmp));
            proof {
                assert(arguments@.map_values(|a: (QbeType, QbeTemporary)| crate::qbe::argument_model(a))
                    =~= prev.map_values(|a: (QbeType, QbeTemporary)| crate::qbe::argument_model(a)).push(
                    (argument_type(args[i as int]), temp_name((c0 + i + 1) as nat)),
                ));
                assert(self.frames().drop_last() =~= outer);
                assert(arguments@.map_values(|a: (QbeType, QbeTemporary)| crate::qbe::argument_model(a))
                    =~= Seq::new(
                    (i + 1) as nat,
                    |k: int| (argument_type(args[k]), temp_name((c0 + k + 1) as nat)),
                ));
                assert forall|x: Seq<char>|
                    self.frames().last().contains_key(x) implies exists|j: int|
                        0 <= j < i + 1 && #[trigger] args[j].name@ == x by {
                    if x != args[i as int].name@ {
                        assert(before.last().contains_key(x));
                    }
                }
            }
            i = i + 1;
        }
        let return_ty = match &func.return_type {
            Some(t) => match self.get_type(t) {
                Ok(q) => Some(q.into_abi()),
                Err(e) => {
                    self.pop_scope();
                    proof {
                        assert(self.frames() =~= outer);
                    }
                    return Err(e);
                },
            },
            None => None,
        };
        let mut qfunc = QbeFunction {
            exported: true,
            name: func.name.clone(),
            arguments,
            return_ty,
            blocks: Vec::new(),
        };
        proof {
            reveal_strlit("start");
            assert(qfunc@.blocks =~= Seq::<BlockModel>::empty());
        }
        let label = String::from_str("start");
        assert(label@ =~= start_label());
        qfunc.add_block(label);
        let ghost opened = qfunc@;
        assert(opened.blocks =~= seq![BlockModel { label: start_label(), instructions: seq![] }]);
        self.generate_statement(&mut qfunc, &func.body);
        let ghost body = statement_lowering(func.body, (c0 + args.len()) as nat);
        // Automatically add return in void functions
        if func.return_type.is_none() {
            qfunc.add_instr(QbeInstr::Ret(None));
            proof {
                lemma_append_twice(opened, body, seq![StmtModel::Volatile(InstrModel::Ret(None))]);
            }
        } else {
            proof {
                assert(body + seq![] =~= body);
            }
        }
        self.pop_scope();
        proof {
            assert(self.frames() =~= outer);
            let expected = function_lowering(*func, c0)->Ok_0;
            let tail = if func.return_type is None {
                seq![StmtModel::Volatile(InstrModel::Ret(None))]
            } else {
                seq![]
            };
            assert(qfunc@ == append_to_last_block(opened, body + tail));
            assert(seq![] + (body + tail) =~= body + tail);
            assert(qfunc@.blocks =~= expected.blocks);
            assert(qfunc@.arguments =~= expected.arguments);
        }
        Ok(qfunc)
    }

    /// Returns a QBE type for the given AST type
    pub fn get_type(&self, ty: &Type) -> (r: Result<QbeType, GenError>)
        ensures
            result_view(r) == type_lowering(*ty),
    {
        match ty {
            Type::Int => Ok(QbeType::Word),
            Type::Bool => Ok(QbeType::Byte),
            _ => Err(GenError::UnsupportedType),
        }
    }

    /// Lowers an expression into the current block; returns the type and
    /// the fresh temporary that hold its value.
    pub fn generate_expression(&mut self, func: &mut QbeFunction, expr: &Expression) -> (r: (
        QbeType,
        QbeTemporary,
    ))
        requires
            old(func)@.blocks.len() > 0,
            old(self).counter() < u64::MAX,
        ensures
            old(self).wf() ==> final(self).wf(),
            final(self).frames() == old(self).frames(),
            final(self).counter() == old(self).counter() + 1,
            r.0@ == IrType::Word,
            r.1@ == temp_name(final(self).counter()),
            final(func)@ == append_to_last_block(
                old(func)@,
                seq![
                    StmtModel::Assign(
                        r.1@,
                        IrType::Word,
                        InstrModel::Copy(
                            match expr {
                                Expression::Int(n) => ValueModel::Const(*n as nat),
                            },
                        ),
                    ),
                ],
            ),
    {
        match expr {
            Expression::Int(literal) => {
                let tmp = self.new_temporary();
                func.assign_instr(
                    tmp.duplicate(),
                    QbeType::Word,
                    QbeInstr::Copy(QbeValue::Const(*literal)),
                );
                (QbeType::Word, tmp)
            },
        }
    }

    /// Lowers a statement into the current block of `func`.
    pub fn generate_statement(&mut self, func: &mut QbeFunction, stmt: &Statement)
        requires
            old(self).wf(),
            old(func)@.blocks.len() > 0,
            old(self).counter() + statement_temps(*stmt) <= u64::MAX,
        ensures
            final(self).wf(),
            final(self).frames() == old(self).frames(),
            final(self).counter() == old(self).counter() + statement_temps(*stmt),
            final(func)@ == append_to_last_block(
                old(func)@,
                statement_lowering(*stmt, old(self).counter()),
            ),
        decreases stmt,
    {
        let ghost c0 = self.counter();
        let ghost f0 = func@;
        match stmt {
            Statement::Block(statements) => {
                self.push_scope();
                let ghost inner = self.frames();
                proof {
                    lemma_append_empty(f0);
                }
                let mut i: usize = 0;
                while i < statements.len()
                    invariant
                        i <= statements@.len(),
                        *stmt == Statement::Block(*statements),
                        self.wf(),
                        self.frames() == inner,
                        self.counter() == c0 + list_temps(statements@, i as int),
                        c0 + list_temps(statements@, statements@.len() as int) <= u64::MAX,
                        f0.blocks.len() > 0,
                        func@ == append_to_last_block(f0, list_lowering(statements@, i as int, c0)),
                    decreases statements@.len() - i,
                {
                    proof {
                        lemma_list_temps_monotone(statements@, i as int + 1, statements@.len() as int);
                        let v = (*stmt)->Block_0;
                        assert(decreases_to!(*stmt => v));
                        assert(decreases_to!(v => v@));
                        assert(decreases_to!(v@ => v@[i as int]));
                    }
                    self.generate_statement(func, &statements[i]);
                    proof {
                        lemma_append_twice(
                            f0,
                            list_lowering(statements@, i as int, c0),
                            statement_lowering(statements@[i as int], c0 + list_temps(statements@, i as int)),
                        );
                    }
                    i = i + 1;
                }
                self.pop_scope();
                proof {
                    assert(self.frames() =~= old(self).frames());
                }
            },
            Statement::Return(val) => match val {
                Some(expr) => {
                    let (_, tmp) = self.generate_expression(func, expr);
                    let ghost assigned = func@;
                    func.add_instr(QbeInstr::Ret(Some(tmp)));
                    proof {
                        let a = assigned.blocks.last().instructions.last();
                        let first = seq![a];
                        let second = seq![StmtModel::Volatile(InstrModel::Ret(Some(tmp@)))];
                        lemma_append_twice(f0, first, second);
                        assert(first + second =~= statement_lowering(*stmt, c0));
                    }
                },
                None => {
                    func.add_instr(QbeInstr::Ret(None));
                },
            },
        }
    }

    /// Returns a new unique temporary
    pub fn new_temporary(&mut self) -> (r: QbeTemporary)
        requires
            old(self).counter() < u64::MAX,
        ensures
            final(self).counter() == old(self).counter() + 1,
            final(self).frames() == old(self).frames(),
            old(self).wf() ==> final(self).wf(),
            r@ == temp_name(final(self).counter()),
    {
        proof {
            reveal_strlit("tmp.");
        }
        self.tmp_counter = self.tmp_counter + 1;
        proof {
            if old(self).wf() {
                let fr = self.frames();
                assert(fr == old(self).frames());
                assert forall|f: int, x: Seq<char>|
                    0 <= f < fr.len() && #[trigger] fr[f].contains_key(x) implies exists|k: nat|
                        1 <= k <= self.counter() && fr[f][x] == #[trigger] temp_name(k) by {
                    let k = choose|k: nat|
                        1 <= k <= old(self).counter() && fr[f][x] == #[trigger] temp_name(k);
                    assert(1 <= k <= self.counter());
                }
            }
        }
        let mut name = String::from_str("tmp.");
        let digits = decimal_text(self.tmp_counter);
        name.append(digits.as_str());
        QbeTemporary::new(name)
    }
}

// ----- Laws -----

/// Redeclaration: once `name` is declared in the innermost frame, declaring
/// it again there fails (`new_var` fails exactly where the innermost frame
/// binds the name); a nested frame accepts it, and popping the frame forgets
/// the declaration.
pub proof fn lemma_redeclaration(frames: Seq<Map<Seq<char>, Seq<char>>>, name: Seq<char>, t: Seq<char>)
    requires
        frames.len() > 0,
        !frames.last().contains_key(name),
    ensures
        ({
            let declared = frames.update(frames.len() - 1, frames.last().insert(name, t));
            &&& declared.last().contains_key(name)
            &&& !declared.push(Map::empty()).last().contains_key(name)
            &&& declared.drop_last() == frames.drop_last()
        }),
{
    let declared = frames.update(frames.len() - 1, frames.last().insert(name, t));
    assert(declared.drop_last() =~= frames.drop_last());
}

/// Lookup shadowing: a frame pushed on top that does not bind `name` leaves
/// its lookup as it was; one that binds it decides the lookup; popping that
/// frame gives the outer binding back.
pub proof fn lemma_lookup_shadowing(
    frames: Seq<Map<Seq<char>, Seq<char>>>,
    inner: Map<Seq<char>, Seq<char>>,
    name: Seq<char>,
)
    ensures
        !inner.contains_key(name) ==> lookup(frames.push(inner), name) == lookup(frames, name),
        inner.contains_key(name) ==> lookup(frames.push(inner), name) == Some(inner[name]),
        frames.push(inner).drop_last() == frames,
{
    assert(frames.push(inner).drop_last() =~= frames);
}

/// ABI normalization: `Bool` and `Int` both reach the ABI as a word, and
/// normalizing twice is normalizing once.
pub proof fn lemma_abi_normalization(t: IrType)
    ensures
        abi_type(abi_type(t)) == abi_type(t),
        abi_type(type_lowering(Type::Bool)->Ok_0) == abi_type(type_lowering(Type::Int)->Ok_0),
        abi_type(type_lowering(Type::Int)->Ok_0) == IrType::Word,
{
}

/// Void functions end in `ret`: where a function declares no return type
/// and lowers, the last statement of its last block is a `ret` without value.
pub proof fn lemma_void_function_returns(f: Function, c: nat)
    requires
        f.return_type is None,
        function_lowering(f, c) is Ok,
    ensures
        ({
            let m = function_lowering(f, c)->Ok_0;
            &&& m.blocks.len() > 0
            &&& m.blocks.last().instructions.len() > 0
            &&& m.blocks.last().instructions.last() == StmtModel::Volatile(InstrModel::Ret(None))
        }),
{
}

} // verus!
