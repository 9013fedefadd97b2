use calc::todo::{find_todos, remove_comment, Todo};

#[test]
fn removes_rust_comment() {
    let todo = "// TODO: testing that the double slash is removed";
    let result = remove_comment(&todo);
    let expected = "TODO: testing that the double slash is removed";
    assert_eq!(expected, result)
}

#[test]
fn works_on_nested_todos() {
    let nested_todos = "\
/* TODO: testin nested
 * TODO: nested
 * part of nested
 */";
    let result = find_todos(nested_todos);
    let td1 = Todo {
        multi_line: false,
        content: String::from("TODO: testin nested"),
        line_num: String::from("1"),
        spaces: String::from("   "),
    };

    let td2 = Todo {
        multi_line: false,
        content: String::from("TODO: nested\n      part of nested\n"),
        line_num: String::from("2"),
        spaces: String::from("   "),
    };

    assert_eq!(td1.multi_line, result[0].multi_line);
    assert_eq!(td1.content, result[0].content);
    assert_eq!(td1.line_num, result[0].line_num);
    assert_eq!(td1.spaces, result[0].spaces);

    assert_eq!(td2.multi_line, result[1].multi_line);
    assert_eq!(td2.content, result[1].content);
    assert_eq!(td2.line_num, result[1].line_num);
    assert_eq!(td2.spaces, result[1].spaces);
}

#[test]
fn remove_comment_without_t_is_empty() {
    assert_eq!(remove_comment("// nothing here"), "");
}

#[test]
fn single_line_todos_and_line_numbers() {
    let text = "fn main() {\n    // TODO: first\n}\n\n// TODO: second\r\n";
    let result = find_todos(text);
    assert_eq!(result.len(), 2);
    assert_eq!(result[0].content, "TODO: first");
    assert_eq!(result[0].line_num, "2");
    assert!(!result[0].multi_line);
    assert_eq!(result[1].content, "TODO: second");
    assert_eq!(result[1].line_num, "5");
}

#[test]
fn no_todos_in_plain_text() {
    assert_eq!(find_todos("").len(), 0);
    assert_eq!(find_todos("let x = 1;\n/* a comment */\n").len(), 0);
}

#[test]
fn block_todo_collects_star_lines_until_close() {
    let text = "/* TODO: a\n * b\n * c */\nfn f() {}\n";
    let result = find_todos(text);
    assert_eq!(result.len(), 1);
    assert_eq!(result[0].content, "TODO: a\n      b\n      c");
    assert!(!result[0].multi_line);
}

#[test]
fn unterminated_block_todo_on_last_line_is_kept() {
    let result = find_todos("x\n/* TODO: open");
    assert_eq!(result.len(), 1);
    assert_eq!(result[0].content, "TODO: open");
    assert_eq!(result[0].line_num, "2");
}

#[test]
fn blank_continuation_line_adds_a_line_break() {
    let result = find_todos("/* TODO: a\n\n */");
    assert_eq!(result.len(), 1);
    assert_eq!(result[0].content, "TODO: a\n\n");
}

#[test]
fn new_todo_pads_line_numbers() {
    let t = Todo::new("   // TODO: x  ", 42, false);
    assert_eq!(t.content, "TODO: x");
    assert_eq!(t.line_num, "42");
    assert_eq!(t.spaces, "  ");
    assert!(!t.multi_line);
    let wide = Todo::new("/* TODO: y", 12345, false);
    assert_eq!(wide.spaces, "");
    assert!(wide.multi_line);
    assert_eq!(Todo::new("// TODO", 1, true).multi_line, true);
}

#[test]
fn add_line_strips_star_and_closes() {
    let mut t = Todo::new("/* TODO: a", 7, false);
    t.add_line("   * more text");
    assert_eq!(t.content, "TODO: a\n      more text");
    assert!(t.multi_line);
    t.add_line(" * end */");
    assert_eq!(t.content, "TODO: a\n      more text\n      end");
    assert!(!t.multi_line);
}

#[test]
fn format_todos_joins_fields() {
    let t = Todo::new("// TODO: fix", 9, false);
    assert_eq!(t.format_todos(), "   9: TODO: fix");
}
