use calculator::tree::Tree;
use calculator::value::Value;
use calculator::EvalError;

#[test]
fn test_tree_evaluate() {
    let problems: [(&str, i64); 5] = [
        ("-2--4--8+-2+-11", -3),
        ("-2*-11+-3*-7+-4", 39),
        ("48/4+7-6+6", 19),
        ("-12--10+-4+-6*-4", 18),
        ("5+-12-42/7*-10", 53),
    ];

    for (problem, answer) in problems {
        let tree = Tree::new(problem).unwrap();
        assert_eq!(tree.evaluate().unwrap(), Value::from(answer));
    }
}

#[test]
fn tree_depth_counts_nodes_on_longest_path() {
    let tree = Tree::new("1+2*3").unwrap();
    // The root is `+`, its right subtree `2*3` is two levels deep.
    assert_eq!(tree.root.depth(), 3);
    let leaf = Tree::new("7").unwrap();
    assert_eq!(leaf.root.depth(), 1);
}

#[test]
fn underflow_is_parse_error() {
    assert_eq!(Tree::new("+5").unwrap_err(), EvalError::ParseError);
    assert_eq!(Tree::new("*5").unwrap_err(), EvalError::ParseError);
    assert_eq!(Tree::new("()").unwrap_err(), EvalError::ParseError);
}
