//! Which kind of statement each kind of node is, in each language.

use vstd::prelude::*;

use crate::ts::grammar::{
    go_grammar, java_grammar, kotlin_grammar, python_grammar, rust_grammar, Grammar,
};

verus! {

/// Whether the `n`-th list of a vocabulary, in the order in which a statement is
/// held against them, is the first that a kind stands in; none is, for a number
/// behind the last. What no list wraps stands for itself.
pub open spec fn falls_under(g: Grammar, kind: Seq<char>, n: int) -> bool {
    &&& !g.wrapper_kinds.contains(kind)
    &&& 1 <= n ==> g.block_kinds.contains(kind) == (n == 1)
    &&& 2 <= n ==> g.flatten_kinds.contains(kind) == (n == 2)
    &&& 3 <= n ==> g.class_kinds.contains(kind) == (n == 3)
    &&& 4 <= n ==> g.function_kinds.contains(kind) == (n == 4)
    &&& 5 <= n ==> g.binding_kinds.contains(kind) == (n == 5)
    &&& 6 <= n ==> g.compound_assign_kinds.contains(kind) == (n == 6)
    &&& 7 <= n ==> g.assign_kinds.contains(kind) == (n == 7)
    &&& 8 <= n ==> g.call_kinds.contains(kind) == (n == 8)
    &&& 9 <= n ==> g.if_kinds.contains(kind) == (n == 9)
    &&& 10 <= n ==> g.while_kinds.contains(kind) == (n == 10)
    &&& 11 <= n ==> g.loop_kinds.contains(kind) == (n == 11)
    &&& 12 <= n ==> g.for_kinds.contains(kind) == (n == 12)
    &&& 13 <= n ==> g.return_kinds.contains(kind) == (n == 13)
    &&& 14 <= n ==> g.throw_kinds.contains(kind) == (n == 14)
    &&& 15 <= n ==> g.break_kinds.contains(kind) == (n == 15)
    &&& 16 <= n ==> g.continue_kinds.contains(kind) == (n == 16)
    &&& 17 <= n ==> g.match_kinds.contains(kind) == (n == 17)
    &&& 18 <= n ==> g.try_kinds.contains(kind) == (n == 18)
}

/// What tells the kinds of Rust statements apart.
proof fn lemma_rust_texts()
    ensures
        "expression_statement"@.len() == 20 && "expression_statement"@[1] == 'x',
        "unsafe_block"@.len() == 12 && "unsafe_block"@[1] == 'n',
        "else_clause"@.len() == 11 && "else_clause"@[1] == 'l',
        "block"@.len() == 5 && "block"@[1] == 'l',
        "function_item"@.len() == 13 && "function_item"@[1] == 'u',
        "let_declaration"@.len() == 15 && "let_declaration"@[1] == 'e',
        "compound_assignment_expr"@.len() == 24 && "compound_assignment_expr"@[1] == 'o',
        "assignment_expression"@.len() == 21 && "assignment_expression"@[1] == 's',
        "call_expression"@.len() == 15 && "call_expression"@[1] == 'a',
        "if_expression"@.len() == 13 && "if_expression"@[1] == 'f',
        "while_expression"@.len() == 16 && "while_expression"@[1] == 'h',
        "loop_expression"@.len() == 15 && "loop_expression"@[1] == 'o',
        "for_expression"@.len() == 14 && "for_expression"@[1] == 'o',
        "return_expression"@.len() == 17 && "return_expression"@[1] == 'e',
        "break_expression"@.len() == 16 && "break_expression"@[1] == 'r',
        "continue_expression"@.len() == 19 && "continue_expression"@[1] == 'o',
        "match_expression"@.len() == 16 && "match_expression"@[1] == 'a',
{
    reveal_strlit("expression_statement");
    reveal_strlit("unsafe_block");
    reveal_strlit("else_clause");
    reveal_strlit("block");
    reveal_strlit("function_item");
    reveal_strlit("let_declaration");
    reveal_strlit("compound_assignment_expr");
    reveal_strlit("assignment_expression");
    reveal_strlit("call_expression");
    reveal_strlit("if_expression");
    reveal_strlit("while_expression");
    reveal_strlit("loop_expression");
    reveal_strlit("for_expression");
    reveal_strlit("return_expression");
    reveal_strlit("break_expression");
    reveal_strlit("continue_expression");
    reveal_strlit("match_expression");
}

/// Under which list of the Rust vocabulary each kind falls first.
pub proof fn lemma_rust_sorts()
    ensures
        rust_grammar().wrapper_kinds.contains("expression_statement"@),
        rust_grammar().wrapper_kinds.contains("unsafe_block"@),
        rust_grammar().wrapper_kinds.contains("else_clause"@),
        falls_under(rust_grammar(), "block"@, 1),
        falls_under(rust_grammar(), "function_item"@, 4),
        falls_under(rust_grammar(), "let_declaration"@, 5),
        falls_under(rust_grammar(), "compound_assignment_expr"@, 6),
        falls_under(rust_grammar(), "assignment_expression"@, 7),
        falls_under(rust_grammar(), "call_expression"@, 8),
        falls_under(rust_grammar(), "if_expression"@, 9),
        falls_under(rust_grammar(), "while_expression"@, 10),
        falls_under(rust_grammar(), "loop_expression"@, 11),
        falls_under(rust_grammar(), "for_expression"@, 12),
        falls_under(rust_grammar(), "return_expression"@, 13),
        falls_under(rust_grammar(), "break_expression"@, 15),
        falls_under(rust_grammar(), "continue_expression"@, 16),
        falls_under(rust_grammar(), "match_expression"@, 17),
{
    lemma_rust_texts();
    let g = rust_grammar();
    assert(g.wrapper_kinds[0] == "expression_statement"@);
    assert(g.wrapper_kinds[1] == "unsafe_block"@);
    assert(g.wrapper_kinds[2] == "else_clause"@);
    assert(g.block_kinds[0] == "block"@);
    assert(g.function_kinds[0] == "function_item"@);
    assert(g.binding_kinds[0] == "let_declaration"@);
    assert(g.compound_assign_kinds[0] == "compound_assignment_expr"@);
    assert(g.assign_kinds[0] == "assignment_expression"@);
    assert(g.call_kinds[0] == "call_expression"@);
    assert(g.if_kinds[0] == "if_expression"@);
    assert(g.while_kinds[0] == "while_expression"@);
    assert(g.loop_kinds[0] == "loop_expression"@);
    assert(g.for_kinds[0] == "for_expression"@);
    assert(g.return_kinds[0] == "return_expression"@);
    assert(g.break_kinds[0] == "break_expression"@);
    assert(g.continue_kinds[0] == "continue_expression"@);
    assert(g.match_kinds[0] == "match_expression"@);
}

/// What tells the kinds of Python statements apart.
proof fn lemma_python_texts()
    ensures
        "expression_statement"@.len() == 20 && "expression_statement"@[0] == 'e',
        "else_clause"@.len() == 11 && "else_clause"@[0] == 'e',
        "block"@.len() == 5 && "block"@[0] == 'b',
        "function_definition"@.len() == 19 && "function_definition"@[0] == 'f',
        "augmented_assignment"@.len() == 20 && "augmented_assignment"@[0] == 'a',
        "assignment"@.len() == 10 && "assignment"@[0] == 'a',
        "call"@.len() == 4 && "call"@[0] == 'c',
        "if_statement"@.len() == 12 && "if_statement"@[0] == 'i',
        "while_statement"@.len() == 15 && "while_statement"@[0] == 'w',
        "for_statement"@.len() == 13 && "for_statement"@[0] == 'f',
        "return_statement"@.len() == 16 && "return_statement"@[0] == 'r',
        "raise_statement"@.len() == 15 && "raise_statement"@[0] == 'r',
        "break_statement"@.len() == 15 && "break_statement"@[0] == 'b',
        "continue_statement"@.len() == 18 && "continue_statement"@[0] == 'c',
        "match_statement"@.len() == 15 && "match_statement"@[0] == 'm',
        "try_statement"@.len() == 13 && "try_statement"@[0] == 't',
{
    reveal_strlit("expression_statement");
    reveal_strlit("else_clause");
    reveal_strlit("block");
    reveal_strlit("function_definition");
    reveal_strlit("augmented_assignment");
    reveal_strlit("assignment");
    reveal_strlit("call");
    reveal_strlit("if_statement");
    reveal_strlit("while_statement");
    reveal_strlit("for_statement");
    reveal_strlit("return_statement");
    reveal_strlit("raise_statement");
    reveal_strlit("break_statement");
    reveal_strlit("continue_statement");
    reveal_strlit("match_statement");
    reveal_strlit("try_statement");
}

/// Under which list of the Python vocabulary each kind falls first.
pub proof fn lemma_python_sorts()
    ensures
        python_grammar().wrapper_kinds.contains("expression_statement"@),
        python_grammar().wrapper_kinds.contains("else_clause"@),
        falls_under(python_grammar(), "block"@, 1),
        falls_under(python_grammar(), "function_definition"@, 4),
        falls_under(python_grammar(), "augmented_assignment"@, 6),
        falls_under(python_grammar(), "assignment"@, 7),
        falls_under(python_grammar(), "call"@, 8),
        falls_under(python_grammar(), "if_statement"@, 9),
        falls_under(python_grammar(), "while_statement"@, 10),
        falls_under(python_grammar(), "for_statement"@, 12),
        falls_under(python_grammar(), "return_statement"@, 13),
        falls_under(python_grammar(), "raise_statement"@, 14),
        falls_under(python_grammar(), "break_statement"@, 15),
        falls_under(python_grammar(), "continue_statement"@, 16),
        falls_under(python_grammar(), "match_statement"@, 17),
        falls_under(python_grammar(), "try_statement"@, 18),
{
    lemma_python_texts();
    let g = python_grammar();
    assert(g.wrapper_kinds[0] == "expression_statement"@);
    assert(g.wrapper_kinds[1] == "else_clause"@);
    assert(g.block_kinds[0] == "block"@);
    assert(g.function_kinds[0] == "function_definition"@);
    assert(g.compound_assign_kinds[0] == "augmented_assignment"@);
    assert(g.assign_kinds[0] == "assignment"@);
    assert(g.call_kinds[0] == "call"@);
    assert(g.if_kinds[0] == "if_statement"@);
    assert(g.while_kinds[0] == "while_statement"@);
    assert(g.for_kinds[0] == "for_statement"@);
    assert(g.return_kinds[0] == "return_statement"@);
    assert(g.throw_kinds[0] == "raise_statement"@);
    assert(g.break_kinds[0] == "break_statement"@);
    assert(g.continue_kinds[0] == "continue_statement"@);
    assert(g.match_kinds[0] == "match_statement"@);
    assert(g.try_kinds[0] == "try_statement"@);
}

/// What tells the kinds of Java statements apart.
proof fn lemma_java_texts()
    ensures
        "expression_statement"@.len() == 20 && "expression_statement"@[0] == 'e',
        "block"@.len() == 5 && "block"@[0] == 'b',
        "class_declaration"@.len() == 17 && "class_declaration"@[0] == 'c',
        "method_declaration"@.len() == 18 && "method_declaration"@[0] == 'm',
        "local_variable_declaration"@.len() == 26 && "local_variable_declaration"@[0] == 'l',
        "field_declaration"@.len() == 17 && "field_declaration"@[0] == 'f',
        "assignment_expression"@.len() == 21 && "assignment_expression"@[0] == 'a',
        "method_invocation"@.len() == 17 && "method_invocation"@[0] == 'm',
        "if_statement"@.len() == 12 && "if_statement"@[0] == 'i',
        "while_statement"@.len() == 15 && "while_statement"@[0] == 'w',
        "enhanced_for_statement"@.len() == 22 && "enhanced_for_statement"@[0] == 'e',
        "return_statement"@.len() == 16 && "return_statement"@[0] == 'r',
        "throw_statement"@.len() == 15 && "throw_statement"@[0] == 't',
        "break_statement"@.len() == 15 && "break_statement"@[0] == 'b',
        "continue_statement"@.len() == 18 && "continue_statement"@[0] == 'c',
        "switch_expression"@.len() == 17 && "switch_expression"@[0] == 's',
        "try_statement"@.len() == 13 && "try_statement"@[0] == 't',
{
    reveal_strlit("expression_statement");
    reveal_strlit("block");
    reveal_strlit("class_declaration");
    reveal_strlit("method_declaration");
    reveal_strlit("local_variable_declaration");
    reveal_strlit("field_declaration");
    reveal_strlit("assignment_expression");
    reveal_strlit("method_invocation");
    reveal_strlit("if_statement");
    reveal_strlit("while_statement");
    reveal_strlit("enhanced_for_statement");
    reveal_strlit("return_statement");
    reveal_strlit("throw_statement");
    reveal_strlit("break_statement");
    reveal_strlit("continue_statement");
    reveal_strlit("switch_expression");
    reveal_strlit("try_statement");
}

/// Under which list of the Java vocabulary each kind falls first.
pub proof fn lemma_java_sorts()
    ensures
        java_grammar().wrapper_kinds.contains("expression_statement"@),
        falls_under(java_grammar(), "block"@, 1),
        falls_under(java_grammar(), "class_declaration"@, 3),
        falls_under(java_grammar(), "method_declaration"@, 4),
        falls_under(java_grammar(), "local_variable_declaration"@, 5),
        falls_under(java_grammar(), "field_declaration"@, 5),
        falls_under(java_grammar(), "assignment_expression"@, 7),
        falls_under(java_grammar(), "method_invocation"@, 8),
        falls_under(java_grammar(), "if_statement"@, 9),
        falls_under(java_grammar(), "while_statement"@, 10),
        falls_under(java_grammar(), "enhanced_for_statement"@, 12),
        falls_under(java_grammar(), "return_statement"@, 13),
        falls_under(java_grammar(), "throw_statement"@, 14),
        falls_under(java_grammar(), "break_statement"@, 15),
        falls_under(java_grammar(), "continue_statement"@, 16),
        falls_under(java_grammar(), "switch_expression"@, 17),
        falls_under(java_grammar(), "try_statement"@, 18),
{
    lemma_java_texts();
    let g = java_grammar();
    assert(g.wrapper_kinds[0] == "expression_statement"@);
    assert(g.block_kinds[0] == "block"@);
    assert(g.class_kinds[0] == "class_declaration"@);
    assert(g.function_kinds[0] == "method_declaration"@);
    assert(g.binding_kinds[0] == "local_variable_declaration"@);
    assert(g.binding_kinds[1] == "field_declaration"@);
    assert(g.assign_kinds[0] == "assignment_expression"@);
    assert(g.call_kinds[0] == "method_invocation"@);
    assert(g.if_kinds[0] == "if_statement"@);
    assert(g.while_kinds[0] == "while_statement"@);
    assert(g.for_kinds[0] == "enhanced_for_statement"@);
    assert(g.return_kinds[0] == "return_statement"@);
    assert(g.throw_kinds[0] == "throw_statement"@);
    assert(g.break_kinds[0] == "break_statement"@);
    assert(g.continue_kinds[0] == "continue_statement"@);
    assert(g.match_kinds[0] == "switch_expression"@);
    assert(g.try_kinds[0] == "try_statement"@);
}

/// What tells the kinds of Kotlin statements apart.
proof fn lemma_kotlin_texts()
    ensures
        "function_body"@.len() == 13 && "function_body"@[2] == 'n',
        "block"@.len() == 5 && "block"@[2] == 'o',
        "class_declaration"@.len() == 17 && "class_declaration"@[2] == 'a',
        "function_declaration"@.len() == 20 && "function_declaration"@[2] == 'n',
        "property_declaration"@.len() == 20 && "property_declaration"@[2] == 'o',
        "assignment"@.len() == 10 && "assignment"@[2] == 's',
        "call_expression"@.len() == 15 && "call_expression"@[2] == 'l',
        "if_expression"@.len() == 13 && "if_expression"@[2] == '_',
        "while_statement"@.len() == 15 && "while_statement"@[2] == 'i',
        "for_statement"@.len() == 13 && "for_statement"@[2] == 'r',
        "return_expression"@.len() == 17 && "return_expression"@[2] == 't',
        "throw_expression"@.len() == 16 && "throw_expression"@[2] == 'r',
        "when_expression"@.len() == 15 && "when_expression"@[2] == 'e',
        "try_expression"@.len() == 14 && "try_expression"@[2] == 'y',
        "identifier"@.len() == 10 && "identifier"@[2] == 'e',
{
    reveal_strlit("function_body");
    reveal_strlit("block");
    reveal_strlit("class_declaration");
    reveal_strlit("function_declaration");
    reveal_strlit("property_declaration");
    reveal_strlit("assignment");
    reveal_strlit("call_expression");
    reveal_strlit("if_expression");
    reveal_strlit("while_statement");
    reveal_strlit("for_statement");
    reveal_strlit("return_expression");
    reveal_strlit("throw_expression");
    reveal_strlit("when_expression");
    reveal_strlit("try_expression");
    reveal_strlit("identifier");
}

/// Under which list of the Kotlin vocabulary each kind falls first.
pub proof fn lemma_kotlin_sorts()
    ensures
        kotlin_grammar().wrapper_kinds.contains("function_body"@),
        falls_under(kotlin_grammar(), "block"@, 1),
        falls_under(kotlin_grammar(), "class_declaration"@, 3),
        falls_under(kotlin_grammar(), "function_declaration"@, 4),
        falls_under(kotlin_grammar(), "property_declaration"@, 5),
        falls_under(kotlin_grammar(), "assignment"@, 7),
        falls_under(kotlin_grammar(), "call_expression"@, 8),
        falls_under(kotlin_grammar(), "if_expression"@, 9),
        falls_under(kotlin_grammar(), "while_statement"@, 10),
        falls_under(kotlin_grammar(), "for_statement"@, 12),
        falls_under(kotlin_grammar(), "return_expression"@, 13),
        falls_under(kotlin_grammar(), "throw_expression"@, 14),
        falls_under(kotlin_grammar(), "when_expression"@, 17),
        falls_under(kotlin_grammar(), "try_expression"@, 18),
        falls_under(kotlin_grammar(), "identifier"@, 19),
{
    lemma_kotlin_texts();
    let g = kotlin_grammar();
    assert(g.wrapper_kinds[0] == "function_body"@);
    assert(g.block_kinds[0] == "block"@);
    assert(g.class_kinds[0] == "class_declaration"@);
    assert(g.function_kinds[0] == "function_declaration"@);
    assert(g.binding_kinds[0] == "property_declaration"@);
    assert(g.assign_kinds[0] == "assignment"@);
    assert(g.call_kinds[0] == "call_expression"@);
    assert(g.if_kinds[0] == "if_expression"@);
    assert(g.while_kinds[0] == "while_statement"@);
    assert(g.for_kinds[0] == "for_statement"@);
    assert(g.return_kinds[0] == "return_expression"@);
    assert(g.throw_kinds[0] == "throw_expression"@);
    assert(g.match_kinds[0] == "when_expression"@);
    assert(g.try_kinds[0] == "try_expression"@);
}

/// What tells the kinds of Go statements apart.
proof fn lemma_go_texts()
    ensures
        "expression_statement"@.len() == 20 && "expression_statement"@[0] == 'e',
        "block"@.len() == 5 && "block"@[0] == 'b',
        "statement_list"@.len() == 14 && "statement_list"@[0] == 's',
        "var_declaration"@.len() == 15 && "var_declaration"@[0] == 'v',
        "var_spec_list"@.len() == 13 && "var_spec_list"@[0] == 'v',
        "const_declaration"@.len() == 17 && "const_declaration"@[0] == 'c',
        "function_declaration"@.len() == 20 && "function_declaration"@[0] == 'f',
        "method_declaration"@.len() == 18 && "method_declaration"@[0] == 'm',
        "short_var_declaration"@.len() == 21 && "short_var_declaration"@[0] == 's',
        "receive_statement"@.len() == 17 && "receive_statement"@[0] == 'r',
        "var_spec"@.len() == 8 && "var_spec"@[0] == 'v',
        "const_spec"@.len() == 10 && "const_spec"@[0] == 'c',
        "assignment_statement"@.len() == 20 && "assignment_statement"@[0] == 'a',
        "call_expression"@.len() == 15 && "call_expression"@[0] == 'c',
        "if_statement"@.len() == 12 && "if_statement"@[0] == 'i',
        "for_statement"@.len() == 13 && "for_statement"@[0] == 'f',
        "return_statement"@.len() == 16 && "return_statement"@[0] == 'r',
        "break_statement"@.len() == 15 && "break_statement"@[0] == 'b',
        "continue_statement"@.len() == 18 && "continue_statement"@[0] == 'c',
        "expression_switch_statement"@.len() == 27 && "expression_switch_statement"@[0] == 'e',
        "select_statement"@.len() == 16 && "select_statement"@[0] == 's',
{
    reveal_strlit("expression_statement");
    reveal_strlit("block");
    reveal_strlit("statement_list");
    reveal_strlit("var_declaration");
    reveal_strlit("var_spec_list");
    reveal_strlit("const_declaration");
    reveal_strlit("function_declaration");
    reveal_strlit("method_declaration");
    reveal_strlit("short_var_declaration");
    reveal_strlit("receive_statement");
    reveal_strlit("var_spec");
    reveal_strlit("const_spec");
    reveal_strlit("assignment_statement");
    reveal_strlit("call_expression");
    reveal_strlit("if_statement");
    reveal_strlit("for_statement");
    reveal_strlit("return_statement");
    reveal_strlit("break_statement");
    reveal_strlit("continue_statement");
    reveal_strlit("expression_switch_statement");
    reveal_strlit("select_statement");
}

/// Under which list of the Go vocabulary each kind falls first.
pub proof fn lemma_go_sorts()
    ensures
        go_grammar().wrapper_kinds.contains("expression_statement"@),
        falls_under(go_grammar(), "block"@, 1),
        falls_under(go_grammar(), "statement_list"@, 1),
        falls_under(go_grammar(), "var_declaration"@, 2),
        falls_under(go_grammar(), "var_spec_list"@, 2),
        falls_under(go_grammar(), "const_declaration"@, 2),
        falls_under(go_grammar(), "function_declaration"@, 4),
        falls_under(go_grammar(), "method_declaration"@, 4),
        falls_under(go_grammar(), "short_var_declaration"@, 5),
        falls_under(go_grammar(), "receive_statement"@, 5),
        falls_under(go_grammar(), "var_spec"@, 5),
        falls_under(go_grammar(), "const_spec"@, 5),
        falls_under(go_grammar(), "assignment_statement"@, 7),
        falls_under(go_grammar(), "call_expression"@, 8),
        falls_under(go_grammar(), "if_statement"@, 9),
        falls_under(go_grammar(), "for_statement"@, 12),
        falls_under(go_grammar(), "return_statement"@, 13),
        falls_under(go_grammar(), "break_statement"@, 15),
        falls_under(go_grammar(), "continue_statement"@, 16),
        falls_under(go_grammar(), "expression_switch_statement"@, 17),
        falls_under(go_grammar(), "select_statement"@, 17),
{
    lemma_go_texts();
    let g = go_grammar();
    assert(g.wrapper_kinds[0] == "expression_statement"@);
    assert(g.block_kinds[0] == "block"@);
    assert(g.block_kinds[1] == "statement_list"@);
    assert(g.flatten_kinds[0] == "var_declaration"@);
    assert(g.flatten_kinds[1] == "var_spec_list"@);
    assert(g.flatten_kinds[2] == "const_declaration"@);
    assert(g.function_kinds[0] == "function_declaration"@);
    assert(g.function_kinds[1] == "method_declaration"@);
    assert(g.binding_kinds[0] == "short_var_declaration"@);
    assert(g.binding_kinds[1] == "receive_statement"@);
    assert(g.binding_kinds[2] == "var_spec"@);
    assert(g.binding_kinds[3] == "const_spec"@);
    assert(g.assign_kinds[0] == "assignment_statement"@);
    assert(g.call_kinds[0] == "call_expression"@);
    assert(g.if_kinds[0] == "if_statement"@);
    assert(g.for_kinds[0] == "for_statement"@);
    assert(g.return_kinds[0] == "return_statement"@);
    assert(g.break_kinds[0] == "break_statement"@);
    assert(g.continue_kinds[0] == "continue_statement"@);
    assert(g.match_kinds[0] == "expression_switch_statement"@);
    assert(g.match_kinds[1] == "select_statement"@);
}

} // verus!
