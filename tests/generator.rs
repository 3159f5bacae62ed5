use antimony::ast::{Expression, Function, Module, Statement, Type, Variable};
use antimony::generator::{GenError, QbeGenerator};
use antimony::qbe::QbeType;

fn argument(name: &str, ty: Option<Type>) -> Variable {
    Variable {
        name: name.to_owned(),
        ty,
    }
}

fn function(name: &str, arguments: Vec<Variable>, return_type: Option<Type>, body: Statement) -> Function {
    Function {
        name: name.to_owned(),
        arguments,
        return_type,
        body,
    }
}

#[test]
fn redeclaration_in_one_frame_fails() {
    let mut generator = QbeGenerator::new();
    generator.push_scope();
    let first = generator.new_var("x").unwrap();
    assert_eq!(first.render(), "%tmp.1");
    match generator.new_var("x") {
        Err(GenError::Redeclaration(name)) => assert_eq!(name, "x"),
        other => panic!("expected a redeclaration, got {:?}", other),
    }
    generator.push_scope();
    let nested = generator.new_var("x").unwrap();
    assert_eq!(nested.render(), "%tmp.2");
    generator.pop_scope();
    generator.pop_scope();
    generator.push_scope();
    assert!(generator.new_var("x").is_ok());
}

#[test]
fn lookup_sees_the_innermost_binding() {
    let mut generator = QbeGenerator::new();
    generator.push_scope();
    let outer = generator.new_var("x").unwrap();
    generator.push_scope();
    assert_eq!(generator.get_var("x").unwrap().render(), outer.render());
    let inner = generator.new_var("x").unwrap();
    assert_eq!(generator.get_var("x").unwrap().render(), inner.render());
    assert_ne!(inner.render(), outer.render());
    generator.pop_scope();
    assert_eq!(generator.get_var("x").unwrap().render(), outer.render());
    match generator.get_var("y") {
        Err(GenError::Undefined(name)) => assert_eq!(name, "y"),
        other => panic!("expected an undefined name, got {:?}", other),
    }
}

#[test]
fn temporaries_are_numbered_in_order() {
    let mut generator = QbeGenerator::new();
    let names: Vec<String> = (0..12).map(|_| generator.new_temporary().render()).collect();
    assert_eq!(names[0], "%tmp.1");
    assert_eq!(names[9], "%tmp.10");
    assert_eq!(names[11], "%tmp.12");
}

#[test]
fn type_lowering() {
    let generator = QbeGenerator::new();
    let bool_abi = generator.get_type(&Type::Bool).unwrap().into_abi();
    let int_abi = generator.get_type(&Type::Int).unwrap().into_abi();
    assert_eq!(bool_abi, QbeType::Word);
    assert_eq!(int_abi, QbeType::Word);
    assert_eq!(generator.get_type(&Type::Bool).unwrap(), QbeType::Byte);
    for ty in [
        Type::Any,
        Type::Str,
        Type::Array(Box::new(Type::Int)),
        Type::Struct("point".to_owned()),
    ] {
        assert!(matches!(generator.get_type(&ty), Err(GenError::UnsupportedType)));
    }
}

#[test]
fn void_function_gets_a_trailing_ret() {
    let module = Module {
        functions: vec![function("main", Vec::new(), None, Statement::Block(Vec::new()))],
    };
    let text = QbeGenerator::generate(&module).unwrap();
    assert_eq!(text, "export function $main() {\n@start\n\tret\n}\n");
}

#[test]
fn explicit_return_in_void_function_is_followed_by_another() {
    let module = Module {
        functions: vec![function(
            "main",
            Vec::new(),
            None,
            Statement::Block(vec![Statement::Return(None)]),
        )],
    };
    let text = QbeGenerator::generate(&module).unwrap();
    assert_eq!(text, "export function $main() {\n@start\n\tret\n\tret\n}\n");
}

#[test]
fn returning_a_literal() {
    let module = Module {
        functions: vec![function(
            "answer",
            Vec::new(),
            Some(Type::Int),
            Statement::Block(vec![Statement::Block(vec![Statement::Return(Some(
                Expression::Int(42),
            ))])]),
        )],
    };
    let text = QbeGenerator::generate(&module).unwrap();
    assert_eq!(
        text,
        "export function w $answer() {\n@start\n\t%tmp.1 =w copy 42\n\tret %tmp.1\n}\n"
    );
}

#[test]
fn arguments_and_counter_across_functions() {
    let module = Module {
        functions: vec![
            function(
                "f",
                vec![argument("a", Some(Type::Int)), argument("b", Some(Type::Bool))],
                Some(Type::Bool),
                Statement::Return(Some(Expression::Int(1))),
            ),
            function(
                "g",
                vec![argument("a", Some(Type::Int))],
                None,
                Statement::Block(Vec::new()),
            ),
        ],
    };
    let text = QbeGenerator::generate(&module).unwrap();
    assert_eq!(
        text,
        "export function w $f(w %tmp.1, w %tmp.2) {\n@start\n\t%tmp.3 =w copy 1\n\tret %tmp.3\n}\n\
         export function $g(w %tmp.4) {\n@start\n\tret\n}\n"
    );
}

#[test]
fn generation_errors() {
    let missing = Module {
        functions: vec![function(
            "f",
            vec![argument("a", None)],
            None,
            Statement::Block(Vec::new()),
        )],
    };
    assert!(matches!(QbeGenerator::generate(&missing), Err(GenError::MissingType)));

    let twice = Module {
        functions: vec![function(
            "f",
            vec![argument("a", Some(Type::Int)), argument("a", Some(Type::Bool))],
            None,
            Statement::Block(Vec::new()),
        )],
    };
    match QbeGenerator::generate(&twice) {
        Err(GenError::Redeclaration(name)) => assert_eq!(name, "a"),
        other => panic!("expected a redeclaration, got {:?}", other),
    }

    let any = Module {
        functions: vec![function(
            "f",
            vec![argument("a", Some(Type::Any))],
            None,
            Statement::Block(Vec::new()),
        )],
    };
    assert!(matches!(QbeGenerator::generate(&any), Err(GenError::UnsupportedType)));

    let aggregate_return = Module {
        functions: vec![function(
            "f",
            Vec::new(),
            Some(Type::Str),
            Statement::Block(Vec::new()),
        )],
    };
    assert!(matches!(
        QbeGenerator::generate(&aggregate_return),
        Err(GenError::UnsupportedType)
    ));
}

#[test]
fn empty_module_is_empty_text() {
    let module = Module {
        functions: Vec::new(),
    };
    assert_eq!(QbeGenerator::generate(&module).unwrap(), "");
}

#[test]
fn empty_body_keeps_the_label_line_break() {
    let module = Module {
        functions: vec![function("f", Vec::new(), Some(Type::Int), Statement::Block(Vec::new()))],
    };
    let text = QbeGenerator::generate(&module).unwrap();
    assert_eq!(text, "export function w $f() {\n@start\n\n}\n");
}
