use antimony::qbe::{QbeBlock, QbeFunction, QbeInstr, QbeStatement, QbeTemporary, QbeType, QbeValue};

#[test]
fn temporary() {
    let tmp = QbeTemporary::new("temp42".into());
    assert_eq!(tmp.render(), "%temp42");
}

#[test]
fn block() {
    let blk = QbeBlock {
        label: "start".into(),
        instructions: vec![QbeStatement::Volatile(QbeInstr::Ret(None))],
    };

    let formatted = blk.render();
    let mut lines = formatted.lines();
    assert_eq!(lines.next().unwrap(), "@start");
    assert_eq!(lines.next().unwrap(), "\tret");

    let blk = QbeBlock {
        label: "start".into(),
        instructions: vec![
            QbeStatement::Volatile(QbeInstr::Ret(None)),
            QbeStatement::Volatile(QbeInstr::Ret(None)),
        ],
    };

    let formatted = blk.render();
    let mut lines = formatted.lines();
    assert_eq!(lines.next().unwrap(), "@start");
    assert_eq!(lines.next().unwrap(), "\tret");
    assert_eq!(lines.next().unwrap(), "\tret");
}

#[test]
fn function() {
    let func = QbeFunction {
        exported: true,
        return_ty: None,
        name: "main".into(),
        arguments: Vec::new(),
        blocks: vec![QbeBlock {
            label: "start".into(),
            instructions: vec![QbeStatement::Volatile(QbeInstr::Ret(None))],
        }],
    };

    let formatted = func.render();
    let mut lines = formatted.lines();
    assert_eq!(lines.next().unwrap(), "export function $main() {");
    assert_eq!(lines.next().unwrap(), "@start");
    assert_eq!(lines.next().unwrap(), "\tret");
    assert_eq!(lines.next().unwrap(), "}");
}

#[test]
fn type_into_abi() {
    // Base types and aggregates should stay unchanged
    let unchanged = |ty: QbeType| assert_eq!(ty.clone().into_abi(), ty);
    unchanged(QbeType::Word);
    unchanged(QbeType::Long);
    unchanged(QbeType::Single);
    unchanged(QbeType::Double);
    unchanged(QbeType::Aggregate("foo".into()));

    // Extended types are transformed into closest base types
    assert_eq!(QbeType::Byte.into_abi(), QbeType::Word);
    assert_eq!(QbeType::Halfword.into_abi(), QbeType::Word);
}

#[test]
fn abi_normalization_is_idempotent() {
    for ty in [
        QbeType::Word,
        QbeType::Long,
        QbeType::Single,
        QbeType::Double,
        QbeType::Byte,
        QbeType::Halfword,
        QbeType::Aggregate("pair".into()),
    ] {
        let once = ty.clone().into_abi();
        assert_eq!(once.clone().into_abi(), once);
    }
}

#[test]
fn type_codes() {
    let codes: Vec<String> = [
        QbeType::Word,
        QbeType::Long,
        QbeType::Single,
        QbeType::Double,
        QbeType::Byte,
        QbeType::Halfword,
        QbeType::Aggregate("pair".into()),
    ]
    .iter()
    .map(|t| t.render())
    .collect();
    assert_eq!(codes, vec!["w", "l", "s", "d", "b", "h", ":pair"]);
}

#[test]
fn statements_render() {
    let assign = QbeStatement::Assign(
        QbeTemporary::new("x".into()),
        QbeType::Word,
        QbeInstr::Copy(QbeValue::Const(1234567)),
    );
    assert_eq!(assign.render(), "%x =w copy 1234567");
    let copy = QbeStatement::Assign(
        QbeTemporary::new("y".into()),
        QbeType::Long,
        QbeInstr::Copy(QbeValue::Temporary(QbeTemporary::new("x".into()))),
    );
    assert_eq!(copy.render(), "%y =l copy %x");
    let ret = QbeStatement::Volatile(QbeInstr::Ret(Some(QbeTemporary::new("y".into()))));
    assert_eq!(ret.render(), "ret %y");
    let zero = QbeInstr::Copy(QbeValue::Const(0));
    assert_eq!(zero.render(), "copy 0");
}

#[test]
fn block_rendering_is_deterministic() {
    let make = || QbeBlock {
        label: "body".into(),
        instructions: vec![
            QbeStatement::Assign(
                QbeTemporary::new("a".into()),
                QbeType::Word,
                QbeInstr::Copy(QbeValue::Const(7)),
            ),
            QbeStatement::Volatile(QbeInstr::Ret(Some(QbeTemporary::new("a".into())))),
        ],
    };
    let first = make().render();
    assert_eq!(first, make().render());
    assert_eq!(first, "@body\n\t%a =w copy 7\n\tret %a");
    assert_eq!(first.lines().filter(|l| l.starts_with('@')).count(), 1);
    let empty = QbeBlock {
        label: "end".into(),
        instructions: Vec::new(),
    };
    assert_eq!(empty.render(), "@end\n");
}

#[test]
fn function_with_arguments_and_blocks() {
    let mut func = QbeFunction {
        exported: false,
        return_ty: Some(QbeType::Word),
        name: "add".into(),
        arguments: vec![
            (QbeType::Word, QbeTemporary::new("a".into())),
            (QbeType::Long, QbeTemporary::new("b".into())),
        ],
        blocks: Vec::new(),
    };
    func.add_block("start".into());
    func.assign_instr(
        QbeTemporary::new("c".into()),
        QbeType::Word,
        QbeInstr::Copy(QbeValue::Const(3)),
    );
    func.add_block("end".into());
    func.add_instr(QbeInstr::Ret(Some(QbeTemporary::new("c".into()))));
    assert_eq!(
        func.render(),
        "function w $add(w %a, l %b) {\n@start\n\t%c =w copy 3\n\n@end\n\tret %c\n}"
    );
}
