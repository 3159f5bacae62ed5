//! The QBE text model: instructions, types, temporaries, statements, labelled
//! blocks and functions, each with the text it renders to.
use crate::text::{decimal, decimal_text};
use vstd::prelude::*;

verus! {

/// A QBE type.
#[derive(Debug, PartialEq, Eq, Clone)]
pub enum QbeType {
    // Base types
    Word,
    Long,
    Single,
    Double,
    // Extended types
    Byte,
    Halfword,
    /// Aggregate type with a specified name
    Aggregate(String),
}

/// What a `QbeType` stands for, with the aggregate's name as characters.
pub enum IrType {
    Word,
    Long,
    Single,
    Double,
    Byte,
    Halfword,
    Aggregate(Seq<char>),
}

/// A QBE temporary, rendered as `%name`.
#[derive(Debug, Clone)]
pub struct QbeTemporary {
    pub name: String,
}

/// The operand of a copy: a temporary or a literal value.
#[derive(Debug)]
pub enum QbeValue {
    Temporary(QbeTemporary),
    Const(usize),
}

/// What a `QbeValue` stands for.
pub enum ValueModel {
    Temporary(Seq<char>),
    Const(nat),
}

/// A QBE instruction.
#[derive(Debug)]
pub enum QbeInstr {
    /// Copies either a temporary or a literal value
    Copy(QbeValue),
    /// Return from a function, optionally with a value
    Ret(Option<QbeTemporary>),
}

/// What a `QbeInstr` stands for.
pub enum InstrModel {
    Copy(ValueModel),
    Ret(Option<Seq<char>>),
}

/// An IR statement: an instruction whose result is bound to a temporary, or
/// one executed for its effect alone.
#[derive(Debug)]
pub enum QbeStatement {
    Assign(QbeTemporary, QbeType, QbeInstr),
    Volatile(QbeInstr),
}

/// What a `QbeStatement` stands for.
pub enum StmtModel {
    Assign(Seq<char>, IrType, InstrModel),
    Volatile(InstrModel),
}

/// A labelled block of statements.
#[derive(Debug)]
pub struct QbeBlock {
    /// Label before the block
    pub label: String,
    /// The statements of the block, in order
    pub instructions: Vec<QbeStatement>,
}

/// What a `QbeBlock` stands for: its label and statements.
pub struct BlockModel {
    pub label: Seq<char>,
    pub instructions: Seq<StmtModel>,
}

/// A QBE function.
#[derive(Debug)]
pub struct QbeFunction {
    /// Should the function be available to outside users
    pub exported: bool,
    /// Function name
    pub name: String,
    /// Function arguments
    pub arguments: Vec<(QbeType, QbeTemporary)>,
    /// Return type
    pub return_ty: Option<QbeType>,
    /// Labelled blocks
    pub blocks: Vec<QbeBlock>,
}

/// What a `QbeFunction` stands for.
pub struct FunctionModel {
    pub exported: bool,
    pub name: Seq<char>,
    pub arguments: Seq<(IrType, Seq<char>)>,
    pub return_ty: Option<IrType>,
    pub blocks: Seq<BlockModel>,
}

impl View for QbeType {
    type V = IrType;

    open spec fn view(&self) -> IrType {
        match self {
            QbeType::Word => IrType::Word,
            QbeType::Long => IrType::Long,
            QbeType::Single => IrType::Single,
            QbeType::Double => IrType::Double,
            QbeType::Byte => IrType::Byte,
            QbeType::Halfword => IrType::Halfword,
            QbeType::Aggregate(name) => IrType::Aggregate(name@),
        }
    }
}

impl View for QbeTemporary {
    type V = Seq<char>;

    open spec fn view(&self) -> Seq<char> {
        self.name@
    }
}

impl View for QbeValue {
    type V = ValueModel;

    open spec fn view(&self) -> ValueModel {
        match self {
            QbeValue::Temporary(t) => ValueModel::Temporary(t@),
            QbeValue::Const(n) => ValueModel::Const(*n as nat),
        }
    }
}

impl View for QbeInstr {
    type V = InstrModel;

    open spec fn view(&self) -> InstrModel {
        match self {
            QbeInstr::Copy(v) => InstrModel::Copy(v@),
            QbeInstr::Ret(None) => InstrModel::Ret(None),
            QbeInstr::Ret(Some(t)) => InstrModel::Ret(Some(t@)),
        }
    }
}

impl View for QbeStatement {
    type V = StmtModel;

    open spec fn view(&self) -> StmtModel {
        match self {
            QbeStatement::Assign(t, ty, i) => StmtModel::Assign(t@, ty@, i@),
            QbeStatement::Volatile(i) => StmtModel::Volatile(i@),
        }
    }
}

impl View for QbeBlock {
    type V = BlockModel;

    open spec fn view(&self) -> BlockModel {
        BlockModel {
            label: self.label@,
            instructions: self.instructions@.map_values(|s: QbeStatement| s@),
        }
    }
}

pub open spec fn argument_model(a: (QbeType, QbeTemporary)) -> (IrType, Seq<char>) {
    (a.0@, a.1@)
}

impl View for QbeFunction {
    type V = FunctionModel;

    open spec fn view(&self) -> FunctionModel {
        FunctionModel {
            exported: self.exported,
            name: self.name@,
            arguments: self.arguments@.map_values(|a: (QbeType, QbeTemporary)| argument_model(a)),
            return_ty: match self.return_ty {
                Some(t) => Some(t@),
                None => None,
            },
            blocks: self.blocks@.map_values(|b: QbeBlock| b@),
        }
    }
}

/// ABI normalization: extended types widen to `Word`, all others stay.
pub open spec fn abi_type(t: IrType) -> IrType {
    match t {
        IrType::Byte | IrType::Halfword => IrType::Word,
        other => other,
    }
}

// ----- The text that each entity renders to -----

pub open spec fn type_text(t: IrType) -> Seq<char> {
    match t {
        IrType::Word => seq!['w'],
        IrType::Long => seq!['l'],
        IrType::Single => seq!['s'],
        IrType::Double => seq!['d'],
        IrType::Byte => seq!['b'],
        IrType::Halfword => seq!['h'],
        IrType::Aggregate(name) => seq![':'] + name,
    }
}

pub open spec fn temporary_text(name: Seq<char>) -> Seq<char> {
    seq!['%'] + name
}

pub open spec fn value_text(v: ValueModel) -> Seq<char> {
    match v {
        ValueModel::Temporary(t) => temporary_text(t),
        ValueModel::Const(n) => decimal(n),
    }
}

pub open spec fn instr_text(i: InstrModel) -> Seq<char> {
    match i {
        InstrModel::Copy(v) => seq!['c', 'o', 'p', 'y', ' '] + value_text(v),
        InstrModel::Ret(None) => seq!['r', 'e', 't'],
        InstrModel::Ret(Some(t)) => seq!['r', 'e', 't', ' '] + temporary_text(t),
    }
}

/// `%t =w copy 1` for an assignment, the bare instruction otherwise.
pub open spec fn statement_text(s: StmtModel) -> Seq<char> {
    match s {
        StmtModel::Assign(t, ty, i) => temporary_text(t) + seq![' ', '='] + type_text(ty) + seq![' ']
            + instr_text(i),
        StmtModel::Volatile(i) => instr_text(i),
    }
}

/// Each statement on a line of its own, indented by a tab; the lines are
/// joined by line breaks.
pub open spec fn statements_text(q: Seq<StmtModel>) -> Seq<char>
    decreases q.len(),
{
    if q.len() == 0 {
        seq![]
    } else if q.len() == 1 {
        seq!['\t'] + statement_text(q[0])
    } else {
        statements_text(q.drop_last()) + seq!['\n', '\t'] + statement_text(q.last())
    }
}

/// The label line `@label` with its line break, then one line per statement.
pub open spec fn block_text(b: BlockModel) -> Seq<char> {
    seq!['@'] + b.label + seq!['\n'] + statements_text(b.instructions)
}

pub open spec fn argument_text(a: (IrType, Seq<char>)) -> Seq<char> {
    type_text(a.0) + seq![' '] + temporary_text(a.1)
}

/// The arguments, separated by `, `.
pub open spec fn arguments_text(q: Seq<(IrType, Seq<char>)>) -> Seq<char>
    decreases q.len(),
{
    if q.len() == 0 {
        seq![]
    } else if q.len() == 1 {
        argument_text(q[0])
    } else {
        arguments_text(q.drop_last()) + seq![',', ' '] + argument_text(q.last())
    }
}

/// Each block followed by a line break, with a blank line between blocks.
pub open spec fn blocks_text(q: Seq<BlockModel>) -> Seq<char>
    decreases q.len(),
{
    if q.len() == 0 {
        seq![]
    } else if q.len() == 1 {
        block_text(q[0]) + seq!['\n']
    } else {
        blocks_text(q.drop_last()) + seq!['\n'] + block_text(q.last()) + seq!['\n']
    }
}

pub open spec fn export_text(exported: bool) -> Seq<char> {
    if exported {
        seq!['e', 'x', 'p', 'o', 'r', 't', ' ']
    } else {
        seq![]
    }
}

pub open spec fn return_type_text(t: Option<IrType>) -> Seq<char> {
    match t {
        Some(t) => seq![' '] + type_text(t),
        None => seq![],
    }
}

/// `export function w $name(w %a, b %b) {`, a line break, the blocks, `}`.
pub open spec fn function_text(f: FunctionModel) -> Seq<char> {
    export_text(f.exported) + seq!['f', 'u', 'n', 'c', 't', 'i', 'o', 'n'] + return_type_text(
        f.return_ty,
    ) + seq![' ', '$'] + f.name + seq!['('] + arguments_text(f.arguments) + seq![
        ')',
        ' ',
        '{',
        '\n',
    ] + blocks_text(f.blocks) + seq!['}']
}

/// `f` with `q` appended to its last block.
pub open spec fn append_to_last_block(f: FunctionModel, q: Seq<StmtModel>) -> FunctionModel {
    FunctionModel {
        blocks: f.blocks.update(
            f.blocks.len() - 1,
            BlockModel {
                label: f.blocks.last().label,
                instructions: f.blocks.last().instructions + q,
            },
        ),
        ..f
    }
}

/// Appending nothing leaves the function as it is.
pub proof fn lemma_append_empty(f: FunctionModel)
    requires
        f.blocks.len() > 0,
    ensures
        append_to_last_block(f, seq![]) == f,
{
    assert(f.blocks.last().instructions + seq![] =~= f.blocks.last().instructions);
    assert(append_to_last_block(f, seq![]).blocks =~= f.blocks);
}

/// Appending `a` and then `b` appends `a + b`.
pub proof fn lemma_append_twice(f: FunctionModel, a: Seq<StmtModel>, b: Seq<StmtModel>)
    requires
        f.blocks.len() > 0,
    ensures
        append_to_last_block(append_to_last_block(f, a), b) == append_to_last_block(f, a + b),
{
    let x = f.blocks.last().instructions;
    assert(x + a + b =~= x + (a + b));
    assert(append_to_last_block(append_to_last_block(f, a), b).blocks =~= append_to_last_block(
        f,
        a + b,
    ).blocks);
}

// ----- Laws -----

/// The statement lines start with a tab.
proof fn lemma_statements_text_start(q: Seq<StmtModel>)
    requires
        q.len() > 0,
    ensures
        statements_text(q).len() >= 1,
        statements_text(q)[0] == '\t',
    decreases q.len(),
{
    if q.len() > 1 {
        let p = statements_text(q.drop_last());
        lemma_statements_text_start(q.drop_last());
        let whole = p + seq!['\n', '\t'] + statement_text(q.last());
        assert(statements_text(q) == whole);
        assert(whole[0] == p[0]);
    } else {
        let whole = seq!['\t'] + statement_text(q[0]);
        assert(statements_text(q) == whole);
        assert(whole[0] == '\t');
    }
}

/// Rendering a block is a function of the block alone, and its text begins
/// with the one label line `@label` and its line break; the text ends there,
/// or the tab of the first statement line follows.
pub proof fn lemma_block_rendering(b: BlockModel, other: BlockModel)
    ensures
        b == other ==> block_text(b) == block_text(other),
        block_text(b).take(b.label.len() + 1 as int) == seq!['@'] + b.label,
        block_text(b)[b.label.len() + 1 as int] == '\n',
        b.instructions.len() == 0 ==> block_text(b).len() == b.label.len() + 2,
        b.instructions.len() > 0 ==> block_text(b)[b.label.len() + 2 as int] == '\t',
{
    let head = seq!['@'] + b.label + seq!['\n'];
    let text = block_text(b);
    assert(text.take(b.label.len() + 1 as int) =~= seq!['@'] + b.label);
    assert(text[b.label.len() + 1 as int] == head[b.label.len() + 1 as int]);
    if b.instructions.len() > 0 {
        lemma_statements_text_start(b.instructions);
        assert(text[b.label.len() + 2 as int] == statements_text(b.instructions)[0]);
    } else {
        assert(statements_text(b.instructions) =~= Seq::<char>::empty());
    }
}

/// The text of the first `n` blocks starts the text of all of them.
proof fn lemma_blocks_text_prefix(q: Seq<BlockModel>, n: int)
    requires
        0 <= n <= q.len(),
    ensures
        blocks_text(q.take(n)).len() <= blocks_text(q).len(),
        blocks_text(q).take(blocks_text(q.take(n)).len() as int) == blocks_text(q.take(n)),
    decreases q.len() - n,
{
    if n == q.len() {
        assert(q.take(n) =~= q);
        assert(blocks_text(q).take(blocks_text(q).len() as int) =~= blocks_text(q));
    } else {
        lemma_blocks_text_prefix(q, n + 1);
        let longer = q.take(n + 1);
        assert(longer.drop_last() =~= q.take(n));
        let a = blocks_text(q.take(n));
        let b = blocks_text(longer);
        if n == 0 {
            assert(q.take(0) =~= Seq::<BlockModel>::empty());
        }
        assert(a.len() <= b.len());
        assert(b.take(a.len() as int) =~= a);
        let all = blocks_text(q);
        assert(all.take(b.len() as int) == b);
        assert forall|i: int| 0 <= i < a.len() implies all[i] == b[i] by {
            assert(all.take(b.len() as int)[i] == all[i]);
        }
        assert(all.take(a.len() as int) =~= b.take(a.len() as int));
    }
}

/// Rendering a function is a function of the value, and its blocks appear in
/// order: the text of the first `k + 1` blocks is that of the first `k`, a
/// blank line where `k > 0`, the text of block `k` (which begins with its
/// `@label` line) and a line break; and it starts the text of all blocks.
pub proof fn lemma_function_rendering(f: FunctionModel, g: FunctionModel, k: int)
    requires
        0 <= k < f.blocks.len(),
    ensures
        f == g ==> function_text(f) == function_text(g),
        blocks_text(f.blocks.take(k + 1)) == blocks_text(f.blocks.take(k)) + (if k == 0 {
            Seq::<char>::empty()
        } else {
            seq!['\n']
        }) + block_text(f.blocks[k]) + seq!['\n'],
        blocks_text(f.blocks).take(blocks_text(f.blocks.take(k + 1)).len() as int) == blocks_text(
            f.blocks.take(k + 1),
        ),
{
    let q = f.blocks;
    let longer = q.take(k + 1);
    assert(longer.drop_last() =~= q.take(k));
    assert(longer.last() == q[k]);
    if k == 0 {
        assert(q.take(0) =~= Seq::<BlockModel>::empty());
        assert(longer[0] == q[0]);
        assert(blocks_text(longer) =~= Seq::<char>::empty() + Seq::<char>::empty() + block_text(q[0])
            + seq!['\n']);
    }
    lemma_blocks_text_prefix(q, k + 1);
}

// ----- Executable items -----

impl QbeType {
    /// Returns a C ABI type. Extended types are converted to closest base
    /// types.
    pub fn into_abi(self) -> (r: Self)
        ensures
            r@ == abi_type(self@),
    {
        match self {
            QbeType::Byte | QbeType::Halfword => QbeType::Word,
            other => other,
        }
    }

    /// A copy of this type.
    pub fn duplicate(&self) -> (r: Self)
        ensures
            r@ == self@,
    {
        match self {
            QbeType::Word => QbeType::Word,
            QbeType::Long => QbeType::Long,
            QbeType::Single => QbeType::Single,
            QbeType::Double => QbeType::Double,
            QbeType::Byte => QbeType::Byte,
            QbeType::Halfword => QbeType::Halfword,
            QbeType::Aggregate(name) => QbeType::Aggregate(name.clone()),
        }
    }

    /// The type's code: one letter, or `:name` for an aggregate.
    pub fn render(&self) -> (r: String)
        ensures
            r@ == type_text(self@),
    {
        proof {
            reveal_strlit("w");
            reveal_strlit("l");
            reveal_strlit("s");
            reveal_strlit("d");
            reveal_strlit("b");
            reveal_strlit("h");
            reveal_strlit(":");
        }
        match self {
            QbeType::Word => String::from_str("w"),
            QbeType::Long => String::from_str("l"),
            QbeType::Single => String::from_str("s"),
            QbeType::Double => String::from_str("d"),
            QbeType::Byte => String::from_str("b"),
            QbeType::Halfword => String::from_str("h"),
            QbeType::Aggregate(name) => {
                let mut s = String::from_str(":");
                s.append(name.as_str());
                s
            },
        }
    }
}

impl QbeTemporary {
    /// Returns a new temporary
    pub fn new(name: String) -> (r: Self)
        ensures
            r@ == name@,
    {
        QbeTemporary { name }
    }

    /// A copy of this temporary.
    pub fn duplicate(&self) -> (r: Self)
        ensures
            r@ == self@,
    {
        QbeTemporary { name: self.name.clone() }
    }

    /// `%name`.
    pub fn render(&self) -> (r: String)
        ensures
            r@ == temporary_text(self@),
    {
        proof {
            reveal_strlit("%");
        }
        let mut s = String::from_str("%");
        s.append(self.name.as_str());
        s
    }
}

impl QbeValue {
    pub fn render(&self) -> (r: String)
        ensures
            r@ == value_text(self@),
    {
        match self {
            QbeValue::Temporary(t) => t.render(),
            QbeValue::Const(n) => decimal_text(*n as u64),
        }
    }
}

impl QbeInstr {
    /// `copy <value>` or `ret [<temporary>]`.
    pub fn render(&self) -> (r: String)
        ensures
            r@ == instr_text(self@),
    {
        proof {
            reveal_strlit("copy ");
            reveal_strlit("ret");
            reveal_strlit("ret ");
        }
        match self {
            QbeInstr::Copy(v) => {
                let mut s = String::from_str("copy ");
                let t = v.render();
                s.append(t.as_str());
                s
            },
            QbeInstr::Ret(None) => String::from_str("ret"),
            QbeInstr::Ret(Some(t)) => {
                let mut s = String::from_str("ret ");
                let tt = t.render();
                s.append(tt.as_str());
                s
            },
        }
    }
}

impl QbeStatement {
    pub fn render(&self) -> (r: String)
        ensures
            r@ == statement_text(self@),
    {
        proof {
            reveal_strlit(" =");
            reveal_strlit(" ");
        }
        match self {
            QbeStatement::Assign(t, ty, i) => {
                let mut s = t.render();
                s.append(" =");
                let tys = ty.render();
                s.append(tys.as_str());
                s.append(" ");
                let is = i.render();
                s.append(is.as_str());
                s
            },
            QbeStatement::Volatile(i) => i.render(),
        }
    }
}

impl QbeBlock {
    /// Adds a new instruction to the block
    pub fn add_instr(&mut self, instr: QbeInstr)
        ensures
            final(self)@.label == old(self)@.label,
            final(self)@.instructions == old(self)@.instructions.push(StmtModel::Volatile(instr@)),
    {
        self.instructions.push(QbeStatement::Volatile(instr));
        proof {
            assert(final(self)@.instructions =~= old(self)@.instructions.push(StmtModel::Volatile(instr@)));
        }
    }

    /// Adds a new instruction assigned to a temporary
    pub fn assign_instr(&mut self, temp: QbeTemporary, ty: QbeType, instr: QbeInstr)
        ensures
            final(self)@.label == old(self)@.label,
            final(self)@.instructions == old(self)@.instructions.push(
                StmtModel::Assign(temp@, ty@, instr@),
            ),
    {
        self.instructions.push(QbeStatement::Assign(temp, ty, instr));
        proof {
            assert(final(self)@.instructions =~= old(self)@.instructions.push(
                StmtModel::Assign(temp@, ty@, instr@),
            ));
        }
    }

    /// The label line `@label`, then each statement on a tab-indented line.
    pub fn render(&self) -> (r: String)
        ensures
            r@ == block_text(self@),
    {
        proof {
            reveal_strlit("@");
        }
        let mut s = String::from_str("@");
        s.append(self.label.as_str());
        proof {
            reveal_strlit("\n");
        }
        s.append("\n");
        let ghost head = s@;
        let mut i: usize = 0;
        while i < self.instructions.len()
            invariant
                i <= self.instructions.len(),
                head == seq!['@'] + self@.label + seq!['\n'],
                s@ == head + statements_text(self@.instructions.take(i as int)),
            decreases self.instructions.len() - i,
        {
            let ghost before = s@;
            proof {
                reveal_strlit("\n\t");
                reveal_strlit("\t");
            }
            if i == 0 {
                s.append("\t");
            } else {
                s.append("\n\t");
            }
            let line = self.instructions[i].render();
            s.append(line.as_str());
            proof {
                let q = self@.instructions.take(i as int + 1);
                assert(q.drop_last() =~= self@.instructions.take(i as int));
                assert(q.last() == self.instructions@[i as int]@);
                if i == 0 {
                    assert(self@.instructions.take(0) =~= Seq::<StmtModel>::empty());
                    assert(q[0] == q.last());
                    assert(s@ == before + seq!['\t'] + line@);
                } else {
                    assert(s@ == before + seq!['\n', '\t'] + line@);
                }
                assert(s@ =~= head + statements_text(q));
            }
            i = i + 1;
        }
        proof {
            assert(self@.instructions.take(i as int) =~= self@.instructions);
        }
        s
    }
}

impl QbeFunction {
    /// Adds a new empty block with a specified label
    pub fn add_block(&mut self, label: String)
        ensures
            final(self)@.exported == old(self)@.exported,
            final(self)@.name == old(self)@.name,
            final(self)@.arguments == old(self)@.arguments,
            final(self)@.return_ty == old(self)@.return_ty,
            final(self)@.blocks == old(self)@.blocks.push(
                BlockModel { label: label@, instructions: seq![] },
            ),
    {
        let b = QbeBlock { label, instructions: Vec::new() };
        proof {
            assert(b@.instructions =~= Seq::<StmtModel>::empty());
        }
        self.blocks.push(b);
        proof {
            assert(final(self)@.blocks =~= old(self)@.blocks.push(
                BlockModel { label: label@, instructions: seq![] },
            ));
        }
    }

    /// The function's text: header line, blocks separated by a blank line,
    /// closing brace.
    pub fn render(&self) -> (r: String)
        ensures
            r@ == function_text(self@),
    {
        proof {
            reveal_strlit("export ");
            reveal_strlit("function");
            reveal_strlit(" ");
            reveal_strlit(" $");
            reveal_strlit("(");
        }
        let mut s = String::new();
        if self.exported {
            s.append("export ");
        }
        s.append("function");
        match &self.return_ty {
            Some(t) => {
                s.append(" ");
                let ts = t.render();
                s.append(ts.as_str());
            },
            None => {},
        }
        s.append(" $");
        s.append(self.name.as_str());
        s.append("(");
        let ghost head = s@;
        assert(head == export_text(self@.exported) + seq!['f', 'u', 'n', 'c', 't', 'i', 'o', 'n']
            + return_type_text(self@.return_ty) + seq![' ', '$'] + self@.name + seq!['(']);
        let mut i: usize = 0;
        while i < self.arguments.len()
            invariant
                i <= self.arguments.len(),
                s@ == head + arguments_text(self@.arguments.take(i as int)),
            decreases self.arguments.len() - i,
        {
            let ghost before = s@;
            proof {
                reveal_strlit(", ");
                reveal_strlit(" ");
            }
            if i > 0 {
                s.append(", ");
            }
            let (ty, temp) = &self.arguments[i];
            let ts = ty.render();
            s.append(ts.as_str());
            s.append(" ");
            let vs = temp.render();
            s.append(vs.as_str());
            proof {
                let q = self@.arguments.take(i as int + 1);
                assert(q.drop_last() =~= self@.arguments.take(i as int));
                assert(q.last() == argument_model(self.arguments@[i as int]));
                assert(s@ =~= head + arguments_text(q));
            }
            i = i + 1;
        }
        proof {
            assert(self@.arguments.take(i as int) =~= self@.arguments);
            reveal_strlit(") {\n");
        }
        s.append(") {\n");
        let ghost mid = s@;
        let mut k: usize = 0;
        while k < self.blocks.len()
            invariant
                k <= self.blocks.len(),
                s@ == mid + blocks_text(self@.blocks.take(k as int)),
            decreases self.blocks.len() - k,
        {
            let ghost before = s@;
            proof {
                reveal_strlit("\n");
            }
            if k > 0 {
                s.append("\n");
            }
            let bs = self.blocks[k].render();
            s.append(bs.as_str());
            s.append("\n");
            proof {
                let q = self@.blocks.take(k as int + 1);
                assert(q.drop_last() =~= self@.blocks.take(k as int));
                assert(q.last() == self.blocks@[k as int]@);
                assert(s@ =~= mid + blocks_text(q));
            }
            k = k + 1;
        }
        proof {
            assert(self@.blocks.take(k as int) =~= self@.blocks);
            reveal_strlit("}");
        }
        s.append("}");
        proof {
            assert(s@ =~= function_text(self@));
        }
        s
    }

    /// Adds a new instruction to the last block
    pub fn add_instr(&mut self, instr: QbeInstr)
        requires
            old(self)@.blocks.len() > 0,
        ensures
            final(self)@ == append_to_last_block(old(self)@, seq![StmtModel::Volatile(instr@)]),
    {
        let last: usize = self.blocks.len() - 1;
        let mut b = self.blocks.remove(last);
        b.add_instr(instr);
        self.blocks.push(b);
        proof {
            let x = old(self)@.blocks.last().instructions;
            assert(x.push(StmtModel::Volatile(instr@)) =~= x + seq![StmtModel::Volatile(instr@)]);
            assert(final(self)@.blocks =~= append_to_last_block(
                old(self)@,
                seq![StmtModel::Volatile(instr@)],
            ).blocks);
        }
    }

    /// Adds a new instruction assigned to a temporary, in the last block
    pub fn assign_instr(&mut self, temp: QbeTemporary, ty: QbeType, instr: QbeInstr)
        requires
            old(self)@.blocks.len() > 0,
        ensures
            final(self)@ == append_to_last_block(
                old(self)@,
                seq![StmtModel::Assign(temp@, ty@, instr@)],
            ),
    {
        let last: usize = self.blocks.len() - 1;
        let mut b = self.blocks.remove(last);
        b.assign_instr(temp, ty, instr);
        self.blocks.push(b);
        proof {
            let x = old(self)@.blocks.last().instructions;
            assert(x.push(StmtModel::Assign(temp@, ty@, instr@)) =~= x + seq![
                StmtModel::Assign(temp@, ty@, instr@),
            ]);
            assert(final(self)@.blocks =~= append_to_last_block(
                old(self)@,
                seq![StmtModel::Assign(temp@, ty@, instr@)],
            ).blocks);
        }
    }
}

} // verus!
