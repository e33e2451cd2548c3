//! Per-language node-kind and field-name vocabularies.
//!
//! [`GrammarTable`] is the only thing that varies between languages; the
//! walker is written once against it. A table entry names node kinds and,
//! where the grammar has them, the fields the walker reads off those kinds. A
//! field that a grammar does not have is left empty, and the walker falls back
//! to a search by kind or by position.

use vstd::prelude::*;

verus! {

/// One language's vocabulary for the generic walker.
#[derive(Debug, Clone, Copy)]
pub struct GrammarTable {
    /// Generator string recorded as provenance.
    pub generator: &'static str,
    /// Whether every block introduces a fresh scope (Rust, Java, Kotlin, Go) or the
    /// function has one flat scope throughout (Python).
    pub block_scoped: bool,
    /// Functions with a name of their own.
    pub function_kinds: &'static [&'static str],
    pub function_name_field: &'static str,
    pub function_params_field: &'static str,
    /// Found by kind where no field holds the parameters (Kotlin).
    pub function_params_kind: &'static str,
    pub function_body_field: &'static str,
    pub function_body_kind: &'static str,
    /// Class-like declarations: their methods are named `Type::method`, their
    /// fields belong to the `<module>` wrapper.
    pub class_kinds: &'static [&'static str],
    pub class_name_field: &'static str,
    pub class_body_field: &'static str,
    pub class_body_kind: &'static str,
    /// Where a function names the type it belongs to itself (Go).
    pub receiver_field: &'static str,
    pub receiver_type_field: &'static str,
    pub receiver_pointer_kind: &'static str,
    /// Nodes whose named children are a sequence of statements.
    pub block_kinds: &'static [&'static str],
    /// Nodes that stand for their `body` field, or their last named child.
    pub wrapper_kinds: &'static [&'static str],
    /// Nodes whose named children stand in their place, in the scope around
    /// them (Go).
    pub flatten_kinds: &'static [&'static str],
    /// Fresh-binding declarations.
    pub binding_kinds: &'static [&'static str],
    pub binding_pattern_field: &'static str,
    pub binding_pattern_kind: &'static str,
    pub binding_value_field: &'static str,
    /// The diverging else-block of a binding that can fail.
    pub binding_alt_field: &'static str,
    /// Where set, names and values live in a list of declarators (Java).
    pub binding_declarator_field: &'static str,
    pub binding_declarator_name_field: &'static str,
    pub binding_declarator_value_field: &'static str,
    /// The declarations whose pattern and value are in other fields (Go).
    pub binding_kinds2: &'static [&'static str],
    pub binding_pattern_field2: &'static str,
    pub binding_value_field2: &'static str,
    /// Assignments.
    pub assign_kinds: &'static [&'static str],
    /// Compound assignments with a kind of their own (Rust, Python).
    pub compound_assign_kinds: &'static [&'static str],
    /// The operator that tells compound assignments apart (Java, Kotlin).
    pub assign_operator_field: &'static str,
    /// Whether assignment is the binding form (Python).
    pub assign_declares: bool,
    pub assign_left_field: &'static str,
    pub assign_right_field: &'static str,
    /// A list of targets, which stands for its only item where it has one (Go).
    pub list_kind: &'static str,
    /// Calls.
    pub call_kinds: &'static [&'static str],
    /// The field that holds the callee; where empty, receiver and method have
    /// fields of their own (Java) or the callee is the first child (Kotlin).
    pub call_callee_field: &'static str,
    pub call_object_field: &'static str,
    pub call_name_field: &'static str,
    /// Method and attribute access.
    pub member_access_kinds: &'static [&'static str],
    pub member_object_field: &'static str,
    pub member_property_field: &'static str,
    pub if_kinds: &'static [&'static str],
    pub if_cond_field: &'static str,
    pub if_then_field: &'static str,
    /// The field of the `else` and `elif` parts; where empty, the third child.
    pub if_alt_field: &'static str,
    /// An "else if" node with a condition and a body of its own (Python).
    pub elif_kind: Option<&'static str>,
    pub while_kinds: &'static [&'static str],
    pub while_cond_field: &'static str,
    pub while_body_field: &'static str,
    /// Loops without a condition.
    pub loop_kinds: &'static [&'static str],
    pub loop_body_field: &'static str,
    /// For-each loops.
    pub for_kinds: &'static [&'static str],
    pub for_pattern_field: &'static str,
    pub for_value_field: &'static str,
    pub for_body_field: &'static str,
    /// Where set, one kind covers every loop, and the clause of a for-each one
    /// has this kind (Go).
    pub for_range_kind: &'static str,
    /// The clause of a loop with a counter.
    pub for_clause_kind: &'static str,
    pub return_kinds: &'static [&'static str],
    pub throw_kinds: &'static [&'static str],
    pub break_kinds: &'static [&'static str],
    pub continue_kinds: &'static [&'static str],
    /// `break` and `continue` spelled as plain identifiers (Kotlin).
    pub break_texts: &'static [&'static str],
    pub continue_texts: &'static [&'static str],
    /// Leaves that name a variable.
    pub identifier_kinds: &'static [&'static str],
    /// `match`, `switch` and `when`.
    pub match_kinds: &'static [&'static str],
    pub match_subject_field: &'static str,
    pub match_subject_kind: &'static str,
    pub match_body_field: &'static str,
    pub match_body_kind: &'static str,
    pub match_arm_kinds: &'static [&'static str],
    pub match_arm_pattern_field: &'static str,
    pub match_arm_pattern_kind: &'static str,
    /// Whether an arm has one label node per value (Kotlin).
    pub match_arm_pattern_multi: bool,
    /// Whether a pattern introduces bindings (Rust, Python).
    pub match_arm_pattern_declares: bool,
    /// A guard beside the pattern (Python).
    pub match_arm_guard_field: &'static str,
    /// A guard inside the pattern (Rust).
    pub match_pattern_guard_field: &'static str,
    /// `try` statements; empty for a language without them.
    pub try_kinds: &'static [&'static str],
    pub try_body_field: &'static str,
    pub try_body_kind: &'static str,
    pub catch_kinds: &'static [&'static str],
    pub catch_body_field: &'static str,
    pub catch_body_kind: &'static str,
    pub catch_param_kind: &'static str,
    pub catch_param_name_field: &'static str,
    /// The path to an `as`-bound exception name (Python).
    pub catch_param_as_field: &'static str,
    pub catch_param_as_pattern_kind: &'static str,
    pub catch_param_alias_field: &'static str,
    pub try_else_kind: &'static str,
    pub try_else_body_field: &'static str,
    pub finally_kind: &'static str,
    pub finally_body_field: &'static str,
    pub finally_body_kind: &'static str,
    /// Closures: each becomes a function named by `closure_name_format`.
    pub closure_kinds: &'static [&'static str],
    pub closure_params_field: &'static str,
    pub closure_params_kind: &'static str,
    pub closure_body_field: &'static str,
    pub closure_body_kind: &'static str,
    /// Whether a closure's statements are its own children (Kotlin).
    pub closure_body_is_bare_children: bool,
    /// `{owner}` becomes the enclosing name, `{idx}` a per-owner counter.
    pub closure_name_format: &'static str,
}

/// A vocabulary as plain text.
#[verifier::ext_equal]
pub struct Grammar {
    pub generator: Seq<char>,
    pub block_scoped: bool,
    pub function_kinds: Seq<Seq<char>>,
    pub function_name_field: Seq<char>,
    pub function_params_field: Seq<char>,
    pub function_params_kind: Seq<char>,
    pub function_body_field: Seq<char>,
    pub function_body_kind: Seq<char>,
    pub class_kinds: Seq<Seq<char>>,
    pub class_name_field: Seq<char>,
    pub class_body_field: Seq<char>,
    pub class_body_kind: Seq<char>,
    pub receiver_field: Seq<char>,
    pub receiver_type_field: Seq<char>,
    pub receiver_pointer_kind: Seq<char>,
    pub block_kinds: Seq<Seq<char>>,
    pub wrapper_kinds: Seq<Seq<char>>,
    pub flatten_kinds: Seq<Seq<char>>,
    pub binding_kinds: Seq<Seq<char>>,
    pub binding_pattern_field: Seq<char>,
    pub binding_pattern_kind: Seq<char>,
    pub binding_value_field: Seq<char>,
    pub binding_alt_field: Seq<char>,
    pub binding_declarator_field: Seq<char>,
    pub binding_declarator_name_field: Seq<char>,
    pub binding_declarator_value_field: Seq<char>,
    pub binding_kinds2: Seq<Seq<char>>,
    pub binding_pattern_field2: Seq<char>,
    pub binding_value_field2: Seq<char>,
    pub assign_kinds: Seq<Seq<char>>,
    pub compound_assign_kinds: Seq<Seq<char>>,
    pub assign_operator_field: Seq<char>,
    pub assign_declares: bool,
    pub assign_left_field: Seq<char>,
    pub assign_right_field: Seq<char>,
    pub list_kind: Seq<char>,
    pub call_kinds: Seq<Seq<char>>,
    pub call_callee_field: Seq<char>,
    pub call_object_field: Seq<char>,
    pub call_name_field: Seq<char>,
    pub member_access_kinds: Seq<Seq<char>>,
    pub member_object_field: Seq<char>,
    pub member_property_field: Seq<char>,
    pub if_kinds: Seq<Seq<char>>,
    pub if_cond_field: Seq<char>,
    pub if_then_field: Seq<char>,
    pub if_alt_field: Seq<char>,
    pub elif_kind: Option<Seq<char>>,
    pub while_kinds: Seq<Seq<char>>,
    pub while_cond_field: Seq<char>,
    pub while_body_field: Seq<char>,
    pub loop_kinds: Seq<Seq<char>>,
    pub loop_body_field: Seq<char>,
    pub for_kinds: Seq<Seq<char>>,
    pub for_pattern_field: Seq<char>,
    pub for_value_field: Seq<char>,
    pub for_body_field: Seq<char>,
    pub for_range_kind: Seq<char>,
    pub for_clause_kind: Seq<char>,
    pub return_kinds: Seq<Seq<char>>,
    pub throw_kinds: Seq<Seq<char>>,
    pub break_kinds: Seq<Seq<char>>,
    pub continue_kinds: Seq<Seq<char>>,
    pub break_texts: Seq<Seq<char>>,
    pub continue_texts: Seq<Seq<char>>,
    pub identifier_kinds: Seq<Seq<char>>,
    pub match_kinds: Seq<Seq<char>>,
    pub match_subject_field: Seq<char>,
    pub match_subject_kind: Seq<char>,
    pub match_body_field: Seq<char>,
    pub match_body_kind: Seq<char>,
    pub match_arm_kinds: Seq<Seq<char>>,
    pub match_arm_pattern_field: Seq<char>,
    pub match_arm_pattern_kind: Seq<char>,
    pub match_arm_pattern_multi: bool,
    pub match_arm_pattern_declares: bool,
    pub match_arm_guard_field: Seq<char>,
    pub match_pattern_guard_field: Seq<char>,
    pub try_kinds: Seq<Seq<char>>,
    pub try_body_field: Seq<char>,
    pub try_body_kind: Seq<char>,
    pub catch_kinds: Seq<Seq<char>>,
    pub catch_body_field: Seq<char>,
    pub catch_body_kind: Seq<char>,
    pub catch_param_kind: Seq<char>,
    pub catch_param_name_field: Seq<char>,
    pub catch_param_as_field: Seq<char>,
    pub catch_param_as_pattern_kind: Seq<char>,
    pub catch_param_alias_field: Seq<char>,
    pub try_else_kind: Seq<char>,
    pub try_else_body_field: Seq<char>,
    pub finally_kind: Seq<char>,
    pub finally_body_field: Seq<char>,
    pub finally_body_kind: Seq<char>,
    pub closure_kinds: Seq<Seq<char>>,
    pub closure_params_field: Seq<char>,
    pub closure_params_kind: Seq<char>,
    pub closure_body_field: Seq<char>,
    pub closure_body_kind: Seq<char>,
    pub closure_body_is_bare_children: bool,
    pub closure_name_format: Seq<char>,
}

/// The views of a list of words.
pub open spec fn words(list: Seq<&'static str>) -> Seq<Seq<char>> {
    list.map_values(|w: &'static str| w@)
}

impl View for GrammarTable {
    type V = Grammar;

    open spec fn view(&self) -> Grammar {
        Grammar {
            generator: self.generator@,
            block_scoped: self.block_scoped,
            function_kinds: words(self.function_kinds@),
            function_name_field: self.function_name_field@,
            function_params_field: self.function_params_field@,
            function_params_kind: self.function_params_kind@,
            function_body_field: self.function_body_field@,
            function_body_kind: self.function_body_kind@,
            class_kinds: words(self.class_kinds@),
            class_name_field: self.class_name_field@,
            class_body_field: self.class_body_field@,
            class_body_kind: self.class_body_kind@,
            receiver_field: self.receiver_field@,
            receiver_type_field: self.receiver_type_field@,
            receiver_pointer_kind: self.receiver_pointer_kind@,
            block_kinds: words(self.block_kinds@),
            wrapper_kinds: words(self.wrapper_kinds@),
            flatten_kinds: words(self.flatten_kinds@),
            binding_kinds: words(self.binding_kinds@),
            binding_pattern_field: self.binding_pattern_field@,
            binding_pattern_kind: self.binding_pattern_kind@,
            binding_value_field: self.binding_value_field@,
            binding_alt_field: self.binding_alt_field@,
            binding_declarator_field: self.binding_declarator_field@,
            binding_declarator_name_field: self.binding_declarator_name_field@,
            binding_declarator_value_field: self.binding_declarator_value_field@,
            binding_kinds2: words(self.binding_kinds2@),
            binding_pattern_field2: self.binding_pattern_field2@,
            binding_value_field2: self.binding_value_field2@,
            assign_kinds: words(self.assign_kinds@),
            compound_assign_kinds: words(self.compound_assign_kinds@),
            assign_operator_field: self.assign_operator_field@,
            assign_declares: self.assign_declares,
            assign_left_field: self.assign_left_field@,
            assign_right_field: self.assign_right_field@,
            list_kind: self.list_kind@,
            call_kinds: words(self.call_kinds@),
            call_callee_field: self.call_callee_field@,
            call_object_field: self.call_object_field@,
            call_name_field: self.call_name_field@,
            member_access_kinds: words(self.member_access_kinds@),
            member_object_field: self.member_object_field@,
            member_property_field: self.member_property_field@,
            if_kinds: words(self.if_kinds@),
            if_cond_field: self.if_cond_field@,
            if_then_field: self.if_then_field@,
            if_alt_field: self.if_alt_field@,
            elif_kind: match self.elif_kind {
                Some(k) => Some(k@),
                None => None,
            },
            while_kinds: words(self.while_kinds@),
            while_cond_field: self.while_cond_field@,
            while_body_field: self.while_body_field@,
            loop_kinds: words(self.loop_kinds@),
            loop_body_field: self.loop_body_field@,
            for_kinds: words(self.for_kinds@),
            for_pattern_field: self.for_pattern_field@,
            for_value_field: self.for_value_field@,
            for_body_field: self.for_body_field@,
            for_range_kind: self.for_range_kind@,
            for_clause_kind: self.for_clause_kind@,
            return_kinds: words(self.return_kinds@),
            throw_kinds: words(self.throw_kinds@),
            break_kinds: words(self.break_kinds@),
            continue_kinds: words(self.continue_kinds@),
            break_texts: words(self.break_texts@),
            continue_texts: words(self.continue_texts@),
            identifier_kinds: words(self.identifier_kinds@),
            match_kinds: words(self.match_kinds@),
            match_subject_field: self.match_subject_field@,
            match_subject_kind: self.match_subject_kind@,
            match_body_field: self.match_body_field@,
            match_body_kind: self.match_body_kind@,
            match_arm_kinds: words(self.match_arm_kinds@),
            match_arm_pattern_field: self.match_arm_pattern_field@,
            match_arm_pattern_kind: self.match_arm_pattern_kind@,
            match_arm_pattern_multi: self.match_arm_pattern_multi,
            match_arm_pattern_declares: self.match_arm_pattern_declares,
            match_arm_guard_field: self.match_arm_guard_field@,
            match_pattern_guard_field: self.match_pattern_guard_field@,
            try_kinds: words(self.try_kinds@),
            try_body_field: self.try_body_field@,
            try_body_kind: self.try_body_kind@,
            catch_kinds: words(self.catch_kinds@),
            catch_body_field: self.catch_body_field@,
            catch_body_kind: self.catch_body_kind@,
            catch_param_kind: self.catch_param_kind@,
            catch_param_name_field: self.catch_param_name_field@,
            catch_param_as_field: self.catch_param_as_field@,
            catch_param_as_pattern_kind: self.catch_param_as_pattern_kind@,
            catch_param_alias_field: self.catch_param_alias_field@,
            try_else_kind: self.try_else_kind@,
            try_else_body_field: self.try_else_body_field@,
            finally_kind: self.finally_kind@,
            finally_body_field: self.finally_body_field@,
            finally_body_kind: self.finally_body_kind@,
            closure_kinds: words(self.closure_kinds@),
            closure_params_field: self.closure_params_field@,
            closure_params_kind: self.closure_params_kind@,
            closure_body_field: self.closure_body_field@,
            closure_body_kind: self.closure_body_kind@,
            closure_body_is_bare_children: self.closure_body_is_bare_children,
            closure_name_format: self.closure_name_format@,
        }
    }
}

/// The vocabulary of Rust.
pub open spec fn rust_grammar() -> Grammar {
    Grammar {
        generator: "vikt-ts/tree-sitter-rust"@,
        block_scoped: true,
        function_kinds: seq!["function_item"@],
        function_name_field: "name"@,
        function_params_field: "parameters"@,
        function_params_kind: ""@,
        function_body_field: "body"@,
        function_body_kind: ""@,
        class_kinds: Seq::empty(),
        class_name_field: ""@,
        class_body_field: ""@,
        class_body_kind: ""@,
        receiver_field: ""@,
        receiver_type_field: ""@,
        receiver_pointer_kind: ""@,
        block_kinds: seq!["block"@],
        wrapper_kinds: seq!["expression_statement"@, "unsafe_block"@, "else_clause"@],
        flatten_kinds: Seq::empty(),
        binding_kinds: seq!["let_declaration"@],
        binding_pattern_field: "pattern"@,
        binding_pattern_kind: ""@,
        binding_value_field: "value"@,
        binding_alt_field: "alternative"@,
        binding_declarator_field: ""@,
        binding_declarator_name_field: ""@,
        binding_declarator_value_field: ""@,
        binding_kinds2: Seq::empty(),
        binding_pattern_field2: ""@,
        binding_value_field2: ""@,
        assign_kinds: seq!["assignment_expression"@],
        compound_assign_kinds: seq!["compound_assignment_expr"@],
        assign_operator_field: ""@,
        assign_declares: false,
        assign_left_field: "left"@,
        assign_right_field: "right"@,
        list_kind: ""@,
        call_kinds: seq!["call_expression"@],
        call_callee_field: "function"@,
        call_object_field: ""@,
        call_name_field: ""@,
        member_access_kinds: seq!["field_expression"@],
        member_object_field: "value"@,
        member_property_field: "field"@,
        if_kinds: seq!["if_expression"@],
        if_cond_field: "condition"@,
        if_then_field: "consequence"@,
        if_alt_field: "alternative"@,
        elif_kind: None,
        while_kinds: seq!["while_expression"@],
        while_cond_field: "condition"@,
        while_body_field: "body"@,
        loop_kinds: seq!["loop_expression"@],
        loop_body_field: "body"@,
        for_kinds: seq!["for_expression"@],
        for_pattern_field: "pattern"@,
        for_value_field: "value"@,
        for_body_field: "body"@,
        for_range_kind: ""@,
        for_clause_kind: ""@,
        return_kinds: seq!["return_expression"@],
        throw_kinds: Seq::empty(),
        break_kinds: seq!["break_expression"@],
        continue_kinds: seq!["continue_expression"@],
        break_texts: Seq::empty(),
        continue_texts: Seq::empty(),
        identifier_kinds: seq!["identifier"@],
        match_kinds: seq!["match_expression"@],
        match_subject_field: "value"@,
        match_subject_kind: ""@,
        match_body_field: "body"@,
        match_body_kind: ""@,
        match_arm_kinds: seq!["match_arm"@],
        match_arm_pattern_field: "pattern"@,
        match_arm_pattern_kind: ""@,
        match_arm_pattern_multi: false,
        match_arm_pattern_declares: true,
        match_arm_guard_field: ""@,
        match_pattern_guard_field: "condition"@,
        try_kinds: Seq::empty(),
        try_body_field: ""@,
        try_body_kind: ""@,
        catch_kinds: Seq::empty(),
        catch_body_field: ""@,
        catch_body_kind: ""@,
        catch_param_kind: ""@,
        catch_param_name_field: ""@,
        catch_param_as_field: ""@,
        catch_param_as_pattern_kind: ""@,
        catch_param_alias_field: ""@,
        try_else_kind: ""@,
        try_else_body_field: ""@,
        finally_kind: ""@,
        finally_body_field: ""@,
        finally_body_kind: ""@,
        closure_kinds: seq!["closure_expression"@],
        closure_params_field: "parameters"@,
        closure_params_kind: ""@,
        closure_body_field: "body"@,
        closure_body_kind: ""@,
        closure_body_is_bare_children: false,
        closure_name_format: "{owner}::{closure#{idx}}"@,
    }
}

/// The vocabulary of Rust.
pub fn rust_table() -> (r: GrammarTable)
    ensures
        r@ == rust_grammar(),
{
    let r = GrammarTable {
        generator: "vikt-ts/tree-sitter-rust",
        block_scoped: true,
        function_kinds: &["function_item"],
        function_name_field: "name",
        function_params_field: "parameters",
        function_params_kind: "",
        function_body_field: "body",
        function_body_kind: "",
        class_kinds: &[],
        class_name_field: "",
        class_body_field: "",
        class_body_kind: "",
        receiver_field: "",
        receiver_type_field: "",
        receiver_pointer_kind: "",
        block_kinds: &["block"],
        wrapper_kinds: &["expression_statement", "unsafe_block", "else_clause"],
        flatten_kinds: &[],
        binding_kinds: &["let_declaration"],
        binding_pattern_field: "pattern",
        binding_pattern_kind: "",
        binding_value_field: "value",
        binding_alt_field: "alternative",
        binding_declarator_field: "",
        binding_declarator_name_field: "",
        binding_declarator_value_field: "",
        binding_kinds2: &[],
        binding_pattern_field2: "",
        binding_value_field2: "",
        assign_kinds: &["assignment_expression"],
        compound_assign_kinds: &["compound_assignment_expr"],
        assign_operator_field: "",
        assign_declares: false,
        assign_left_field: "left",
        assign_right_field: "right",
        list_kind: "",
        call_kinds: &["call_expression"],
        call_callee_field: "function",
        call_object_field: "",
        call_name_field: "",
        member_access_kinds: &["field_expression"],
        member_object_field: "value",
        member_property_field: "field",
        if_kinds: &["if_expression"],
        if_cond_field: "condition",
        if_then_field: "consequence",
        if_alt_field: "alternative",
        elif_kind: None,
        while_kinds: &["while_expression"],
        while_cond_field: "condition",
        while_body_field: "body",
        loop_kinds: &["loop_expression"],
        loop_body_field: "body",
        for_kinds: &["for_expression"],
        for_pattern_field: "pattern",
        for_value_field: "value",
        for_body_field: "body",
        for_range_kind: "",
        for_clause_kind: "",
        return_kinds: &["return_expression"],
        throw_kinds: &[],
        break_kinds: &["break_expression"],
        continue_kinds: &["continue_expression"],
        break_texts: &[],
        continue_texts: &[],
        identifier_kinds: &["identifier"],
        match_kinds: &["match_expression"],
        match_subject_field: "value",
        match_subject_kind: "",
        match_body_field: "body",
        match_body_kind: "",
        match_arm_kinds: &["match_arm"],
        match_arm_pattern_field: "pattern",
        match_arm_pattern_kind: "",
        match_arm_pattern_multi: false,
        match_arm_pattern_declares: true,
        match_arm_guard_field: "",
        match_pattern_guard_field: "condition",
        try_kinds: &[],
        try_body_field: "",
        try_body_kind: "",
        catch_kinds: &[],
        catch_body_field: "",
        catch_body_kind: "",
        catch_param_kind: "",
        catch_param_name_field: "",
        catch_param_as_field: "",
        catch_param_as_pattern_kind: "",
        catch_param_alias_field: "",
        try_else_kind: "",
        try_else_body_field: "",
        finally_kind: "",
        finally_body_field: "",
        finally_body_kind: "",
        closure_kinds: &["closure_expression"],
        closure_params_field: "parameters",
        closure_params_kind: "",
        closure_body_field: "body",
        closure_body_kind: "",
        closure_body_is_bare_children: false,
        closure_name_format: "{owner}::{closure#{idx}}",
    };
    proof {
        assert(r@.function_kinds =~= rust_grammar().function_kinds);
        assert(r@.class_kinds =~= rust_grammar().class_kinds);
        assert(r@.block_kinds =~= rust_grammar().block_kinds);
        assert(r@.wrapper_kinds =~= rust_grammar().wrapper_kinds);
        assert(r@.flatten_kinds =~= rust_grammar().flatten_kinds);
        assert(r@.binding_kinds =~= rust_grammar().binding_kinds);
        assert(r@.binding_kinds2 =~= rust_grammar().binding_kinds2);
        assert(r@.assign_kinds =~= rust_grammar().assign_kinds);
        assert(r@.compound_assign_kinds =~= rust_grammar().compound_assign_kinds);
        assert(r@.call_kinds =~= rust_grammar().call_kinds);
        assert(r@.member_access_kinds =~= rust_grammar().member_access_kinds);
        assert(r@.if_kinds =~= rust_grammar().if_kinds);
        assert(r@.while_kinds =~= rust_grammar().while_kinds);
        assert(r@.loop_kinds =~= rust_grammar().loop_kinds);
        assert(r@.for_kinds =~= rust_grammar().for_kinds);
        assert(r@.return_kinds =~= rust_grammar().return_kinds);
        assert(r@.throw_kinds =~= rust_grammar().throw_kinds);
        assert(r@.break_kinds =~= rust_grammar().break_kinds);
        assert(r@.continue_kinds =~= rust_grammar().continue_kinds);
        assert(r@.break_texts =~= rust_grammar().break_texts);
        assert(r@.continue_texts =~= rust_grammar().continue_texts);
        assert(r@.identifier_kinds =~= rust_grammar().identifier_kinds);
        assert(r@.match_kinds =~= rust_grammar().match_kinds);
        assert(r@.match_arm_kinds =~= rust_grammar().match_arm_kinds);
        assert(r@.try_kinds =~= rust_grammar().try_kinds);
        assert(r@.catch_kinds =~= rust_grammar().catch_kinds);
        assert(r@.closure_kinds =~= rust_grammar().closure_kinds);
    }
    r
}

/// The vocabulary of Python.
pub open spec fn python_grammar() -> Grammar {
    Grammar {
        generator: "vikt-ts/tree-sitter-python"@,
        block_scoped: false,
        function_kinds: seq!["function_definition"@],
        function_name_field: "name"@,
        function_params_field: "parameters"@,
        function_params_kind: ""@,
        function_body_field: "body"@,
        function_body_kind: ""@,
        class_kinds: Seq::empty(),
        class_name_field: ""@,
        class_body_field: ""@,
        class_body_kind: ""@,
        receiver_field: ""@,
        receiver_type_field: ""@,
        receiver_pointer_kind: ""@,
        block_kinds: seq!["block"@],
        wrapper_kinds: seq!["expression_statement"@, "else_clause"@],
        flatten_kinds: Seq::empty(),
        binding_kinds: Seq::empty(),
        binding_pattern_field: ""@,
        binding_pattern_kind: ""@,
        binding_value_field: ""@,
        binding_alt_field: ""@,
        binding_declarator_field: ""@,
        binding_declarator_name_field: ""@,
        binding_declarator_value_field: ""@,
        binding_kinds2: Seq::empty(),
        binding_pattern_field2: ""@,
        binding_value_field2: ""@,
        assign_kinds: seq!["assignment"@],
        compound_assign_kinds: seq!["augmented_assignment"@],
        assign_operator_field: ""@,
        assign_declares: true,
        assign_left_field: "left"@,
        assign_right_field: "right"@,
        list_kind: ""@,
        call_kinds: seq!["call"@],
        call_callee_field: "function"@,
        call_object_field: ""@,
        call_name_field: ""@,
        member_access_kinds: seq!["attribute"@],
        member_object_field: "object"@,
        member_property_field: "attribute"@,
        if_kinds: seq!["if_statement"@],
        if_cond_field: "condition"@,
        if_then_field: "consequence"@,
        if_alt_field: "alternative"@,
        elif_kind: Some("elif_clause"@),
        while_kinds: seq!["while_statement"@],
        while_cond_field: "condition"@,
        while_body_field: "body"@,
        loop_kinds: Seq::empty(),
        loop_body_field: ""@,
        for_kinds: seq!["for_statement"@],
        for_pattern_field: "left"@,
        for_value_field: "right"@,
        for_body_field: "body"@,
        for_range_kind: ""@,
        for_clause_kind: ""@,
        return_kinds: seq!["return_statement"@],
        throw_kinds: seq!["raise_statement"@],
        break_kinds: seq!["break_statement"@],
        continue_kinds: seq!["continue_statement"@],
        break_texts: Seq::empty(),
        continue_texts: Seq::empty(),
        identifier_kinds: seq!["identifier"@],
        match_kinds: seq!["match_statement"@],
        match_subject_field: "subject"@,
        match_subject_kind: ""@,
        match_body_field: "body"@,
        match_body_kind: ""@,
        match_arm_kinds: seq!["case_clause"@],
        match_arm_pattern_field: ""@,
        match_arm_pattern_kind: "case_pattern"@,
        match_arm_pattern_multi: false,
        match_arm_pattern_declares: true,
        match_arm_guard_field: "guard"@,
        match_pattern_guard_field: ""@,
        try_kinds: seq!["try_statement"@],
        try_body_field: "body"@,
        try_body_kind: ""@,
        catch_kinds: seq!["except_clause"@],
        catch_body_field: ""@,
        catch_body_kind: "block"@,
        catch_param_kind: ""@,
        catch_param_name_field: ""@,
        catch_param_as_field: "value"@,
        catch_param_as_pattern_kind: "as_pattern"@,
        catch_param_alias_field: "alias"@,
        try_else_kind: "else_clause"@,
        try_else_body_field: "body"@,
        finally_kind: "finally_clause"@,
        finally_body_field: ""@,
        finally_body_kind: "block"@,
        closure_kinds: seq!["lambda"@],
        closure_params_field: "parameters"@,
        closure_params_kind: ""@,
        closure_body_field: "body"@,
        closure_body_kind: ""@,
        closure_body_is_bare_children: false,
        closure_name_format: "{owner}.<locals>.<lambda>"@,
    }
}

/// The vocabulary of Python.
pub fn python_table() -> (r: GrammarTable)
    ensures
        r@ == python_grammar(),
{
    let r = GrammarTable {
        generator: "vikt-ts/tree-sitter-python",
        block_scoped: false,
        function_kinds: &["function_definition"],
        function_name_field: "name",
        function_params_field: "parameters",
        function_params_kind: "",
        function_body_field: "body",
        function_body_kind: "",
        class_kinds: &[],
        class_name_field: "",
        class_body_field: "",
        class_body_kind: "",
        receiver_field: "",
        receiver_type_field: "",
        receiver_pointer_kind: "",
        block_kinds: &["block"],
        wrapper_kinds: &["expression_statement", "else_clause"],
        flatten_kinds: &[],
        binding_kinds: &[],
        binding_pattern_field: "",
        binding_pattern_kind: "",
        binding_value_field: "",
        binding_alt_field: "",
        binding_declarator_field: "",
        binding_declarator_name_field: "",
        binding_declarator_value_field: "",
        binding_kinds2: &[],
        binding_pattern_field2: "",
        binding_value_field2: "",
        assign_kinds: &["assignment"],
        compound_assign_kinds: &["augmented_assignment"],
        assign_operator_field: "",
        assign_declares: true,
        assign_left_field: "left",
        assign_right_field: "right",
        list_kind: "",
        call_kinds: &["call"],
        call_callee_field: "function",
        call_object_field: "",
        call_name_field: "",
        member_access_kinds: &["attribute"],
        member_object_field: "object",
        member_property_field: "attribute",
        if_kinds: &["if_statement"],
        if_cond_field: "condition",
        if_then_field: "consequence",
        if_alt_field: "alternative",
        elif_kind: Some("elif_clause"),
        while_kinds: &["while_statement"],
        while_cond_field: "condition",
        while_body_field: "body",
        loop_kinds: &[],
        loop_body_field: "",
        for_kinds: &["for_statement"],
        for_pattern_field: "left",
        for_value_field: "right",
        for_body_field: "body",
        for_range_kind: "",
        for_clause_kind: "",
        return_kinds: &["return_statement"],
        throw_kinds: &["raise_statement"],
        break_kinds: &["break_statement"],
        continue_kinds: &["continue_statement"],
        break_texts: &[],
        continue_texts: &[],
        identifier_kinds: &["identifier"],
        match_kinds: &["match_statement"],
        match_subject_field: "subject",
        match_subject_kind: "",
        match_body_field: "body",
        match_body_kind: "",
        match_arm_kinds: &["case_clause"],
        match_arm_pattern_field: "",
        match_arm_pattern_kind: "case_pattern",
        match_arm_pattern_multi: false,
        match_arm_pattern_declares: true,
        match_arm_guard_field: "guard",
        match_pattern_guard_field: "",
        try_kinds: &["try_statement"],
        try_body_field: "body",
        try_body_kind: "",
        catch_kinds: &["except_clause"],
        catch_body_field: "",
        catch_body_kind: "block",
        catch_param_kind: "",
        catch_param_name_field: "",
        catch_param_as_field: "value",
        catch_param_as_pattern_kind: "as_pattern",
        catch_param_alias_field: "alias",
        try_else_kind: "else_clause",
        try_else_body_field: "body",
        finally_kind: "finally_clause",
        finally_body_field: "",
        finally_body_kind: "block",
        closure_kinds: &["lambda"],
        closure_params_field: "parameters",
        closure_params_kind: "",
        closure_body_field: "body",
        closure_body_kind: "",
        closure_body_is_bare_children: false,
        closure_name_format: "{owner}.<locals>.<lambda>",
    };
    proof {
        assert(r@.function_kinds =~= python_grammar().function_kinds);
        assert(r@.class_kinds =~= python_grammar().class_kinds);
        assert(r@.block_kinds =~= python_grammar().block_kinds);
        assert(r@.wrapper_kinds =~= python_grammar().wrapper_kinds);
        assert(r@.flatten_kinds =~= python_grammar().flatten_kinds);
        assert(r@.binding_kinds =~= python_grammar().binding_kinds);
        assert(r@.binding_kinds2 =~= python_grammar().binding_kinds2);
        assert(r@.assign_kinds =~= python_grammar().assign_kinds);
        assert(r@.compound_assign_kinds =~= python_grammar().compound_assign_kinds);
        assert(r@.call_kinds =~= python_grammar().call_kinds);
        assert(r@.member_access_kinds =~= python_grammar().member_access_kinds);
        assert(r@.if_kinds =~= python_grammar().if_kinds);
        assert(r@.while_kinds =~= python_grammar().while_kinds);
        assert(r@.loop_kinds =~= python_grammar().loop_kinds);
        assert(r@.for_kinds =~= python_grammar().for_kinds);
        assert(r@.return_kinds =~= python_grammar().return_kinds);
        assert(r@.throw_kinds =~= python_grammar().throw_kinds);
        assert(r@.break_kinds =~= python_grammar().break_kinds);
        assert(r@.continue_kinds =~= python_grammar().continue_kinds);
        assert(r@.break_texts =~= python_grammar().break_texts);
        assert(r@.continue_texts =~= python_grammar().continue_texts);
        assert(r@.identifier_kinds =~= python_grammar().identifier_kinds);
        assert(r@.match_kinds =~= python_grammar().match_kinds);
        assert(r@.match_arm_kinds =~= python_grammar().match_arm_kinds);
        assert(r@.try_kinds =~= python_grammar().try_kinds);
        assert(r@.catch_kinds =~= python_grammar().catch_kinds);
        assert(r@.closure_kinds =~= python_grammar().closure_kinds);
    }
    r
}

/// The vocabulary of Java.
pub open spec fn java_grammar() -> Grammar {
    Grammar {
        generator: "vikt-ts/tree-sitter-java"@,
        block_scoped: true,
        function_kinds: seq!["method_declaration"@],
        function_name_field: "name"@,
        function_params_field: "parameters"@,
        function_params_kind: ""@,
        function_body_field: "body"@,
        function_body_kind: ""@,
        class_kinds: seq!["class_declaration"@],
        class_name_field: "name"@,
        class_body_field: "body"@,
        class_body_kind: ""@,
        receiver_field: ""@,
        receiver_type_field: ""@,
        receiver_pointer_kind: ""@,
        block_kinds: seq!["block"@],
        wrapper_kinds: seq!["expression_statement"@],
        flatten_kinds: Seq::empty(),
        binding_kinds: seq!["local_variable_declaration"@, "field_declaration"@],
        binding_pattern_field: ""@,
        binding_pattern_kind: ""@,
        binding_value_field: ""@,
        binding_alt_field: ""@,
        binding_declarator_field: "declarator"@,
        binding_declarator_name_field: "name"@,
        binding_declarator_value_field: "value"@,
        binding_kinds2: Seq::empty(),
        binding_pattern_field2: ""@,
        binding_value_field2: ""@,
        assign_kinds: seq!["assignment_expression"@],
        compound_assign_kinds: Seq::empty(),
        assign_operator_field: "operator"@,
        assign_declares: false,
        assign_left_field: "left"@,
        assign_right_field: "right"@,
        list_kind: ""@,
        call_kinds: seq!["method_invocation"@],
        call_callee_field: ""@,
        call_object_field: "object"@,
        call_name_field: "name"@,
        member_access_kinds: seq!["field_access"@],
        member_object_field: "object"@,
        member_property_field: "field"@,
        if_kinds: seq!["if_statement"@],
        if_cond_field: "condition"@,
        if_then_field: "consequence"@,
        if_alt_field: "alternative"@,
        elif_kind: None,
        while_kinds: seq!["while_statement"@],
        while_cond_field: "condition"@,
        while_body_field: "body"@,
        loop_kinds: Seq::empty(),
        loop_body_field: ""@,
        for_kinds: seq!["enhanced_for_statement"@],
        for_pattern_field: "name"@,
        for_value_field: "value"@,
        for_body_field: "body"@,
        for_range_kind: ""@,
        for_clause_kind: ""@,
        return_kinds: seq!["return_statement"@],
        throw_kinds: seq!["throw_statement"@],
        break_kinds: seq!["break_statement"@],
        continue_kinds: seq!["continue_statement"@],
        break_texts: Seq::empty(),
        continue_texts: Seq::empty(),
        identifier_kinds: seq!["identifier"@],
        match_kinds: seq!["switch_expression"@],
        match_subject_field: "condition"@,
        match_subject_kind: ""@,
        match_body_field: "body"@,
        match_body_kind: ""@,
        match_arm_kinds: seq!["switch_block_statement_group"@, "switch_rule"@],
        match_arm_pattern_field: ""@,
        match_arm_pattern_kind: "switch_label"@,
        match_arm_pattern_multi: false,
        match_arm_pattern_declares: false,
        match_arm_guard_field: ""@,
        match_pattern_guard_field: ""@,
        try_kinds: seq!["try_statement"@],
        try_body_field: "body"@,
        try_body_kind: ""@,
        catch_kinds: seq!["catch_clause"@],
        catch_body_field: "body"@,
        catch_body_kind: ""@,
        catch_param_kind: "catch_formal_parameter"@,
        catch_param_name_field: "name"@,
        catch_param_as_field: ""@,
        catch_param_as_pattern_kind: ""@,
        catch_param_alias_field: ""@,
        try_else_kind: ""@,
        try_else_body_field: ""@,
        finally_kind: "finally_clause"@,
        finally_body_field: ""@,
        finally_body_kind: "block"@,
        closure_kinds: seq!["lambda_expression"@],
        closure_params_field: "parameters"@,
        closure_params_kind: ""@,
        closure_body_field: "body"@,
        closure_body_kind: ""@,
        closure_body_is_bare_children: false,
        closure_name_format: "lambda${owner}${idx}"@,
    }
}

/// The vocabulary of Java.
pub fn java_table() -> (r: GrammarTable)
    ensures
        r@ == java_grammar(),
{
    let r = GrammarTable {
        generator: "vikt-ts/tree-sitter-java",
        block_scoped: true,
        function_kinds: &["method_declaration"],
        function_name_field: "name",
        function_params_field: "parameters",
        function_params_kind: "",
        function_body_field: "body",
        function_body_kind: "",
        class_kinds: &["class_declaration"],
        class_name_field: "name",
        class_body_field: "body",
        class_body_kind: "",
        receiver_field: "",
        receiver_type_field: "",
        receiver_pointer_kind: "",
        block_kinds: &["block"],
        wrapper_kinds: &["expression_statement"],
        flatten_kinds: &[],
        binding_kinds: &["local_variable_declaration", "field_declaration"],
        binding_pattern_field: "",
        binding_pattern_kind: "",
        binding_value_field: "",
        binding_alt_field: "",
        binding_declarator_field: "declarator",
        binding_declarator_name_field: "name",
        binding_declarator_value_field: "value",
        binding_kinds2: &[],
        binding_pattern_field2: "",
        binding_value_field2: "",
        assign_kinds: &["assignment_expression"],
        compound_assign_kinds: &[],
        assign_operator_field: "operator",
        assign_declares: false,
        assign_left_field: "left",
        assign_right_field: "right",
        list_kind: "",
        call_kinds: &["method_invocation"],
        call_callee_field: "",
        call_object_field: "object",
        call_name_field: "name",
        member_access_kinds: &["field_access"],
        member_object_field: "object",
        member_property_field: "field",
        if_kinds: &["if_statement"],
        if_cond_field: "condition",
        if_then_field: "consequence",
        if_alt_field: "alternative",
        elif_kind: None,
        while_kinds: &["while_statement"],
        while_cond_field: "condition",
        while_body_field: "body",
        loop_kinds: &[],
        loop_body_field: "",
        for_kinds: &["enhanced_for_statement"],
        for_pattern_field: "name",
        for_value_field: "value",
        for_body_field: "body",
        for_range_kind: "",
        for_clause_kind: "",
        return_kinds: &["return_statement"],
        throw_kinds: &["throw_statement"],
        break_kinds: &["break_statement"],
        continue_kinds: &["continue_statement"],
        break_texts: &[],
        continue_texts: &[],
        identifier_kinds: &["identifier"],
        match_kinds: &["switch_expression"],
        match_subject_field: "condition",
        match_subject_kind: "",
        match_body_field: "body",
        match_body_kind: "",
        match_arm_kinds: &["switch_block_statement_group", "switch_rule"],
        match_arm_pattern_field: "",
        match_arm_pattern_kind: "switch_label",
        match_arm_pattern_multi: false,
        match_arm_pattern_declares: false,
        match_arm_guard_field: "",
        match_pattern_guard_field: "",
        try_kinds: &["try_statement"],
        try_body_field: "body",
        try_body_kind: "",
        catch_kinds: &["catch_clause"],
        catch_body_field: "body",
        catch_body_kind: "",
        catch_param_kind: "catch_formal_parameter",
        catch_param_name_field: "name",
        catch_param_as_field: "",
        catch_param_as_pattern_kind: "",
        catch_param_alias_field: "",
        try_else_kind: "",
        try_else_body_field: "",
        finally_kind: "finally_clause",
        finally_body_field: "",
        finally_body_kind: "block",
        closure_kinds: &["lambda_expression"],
        closure_params_field: "parameters",
        closure_params_kind: "",
        closure_body_field: "body",
        closure_body_kind: "",
        closure_body_is_bare_children: false,
        closure_name_format: "lambda${owner}${idx}",
    };
    proof {
        assert(r@.function_kinds =~= java_grammar().function_kinds);
        assert(r@.class_kinds =~= java_grammar().class_kinds);
        assert(r@.block_kinds =~= java_grammar().block_kinds);
        assert(r@.wrapper_kinds =~= java_grammar().wrapper_kinds);
        assert(r@.flatten_kinds =~= java_grammar().flatten_kinds);
        assert(r@.binding_kinds =~= java_grammar().binding_kinds);
        assert(r@.binding_kinds2 =~= java_grammar().binding_kinds2);
        assert(r@.assign_kinds =~= java_grammar().assign_kinds);
        assert(r@.compound_assign_kinds =~= java_grammar().compound_assign_kinds);
        assert(r@.call_kinds =~= java_grammar().call_kinds);
        assert(r@.member_access_kinds =~= java_grammar().member_access_kinds);
        assert(r@.if_kinds =~= java_grammar().if_kinds);
        assert(r@.while_kinds =~= java_grammar().while_kinds);
        assert(r@.loop_kinds =~= java_grammar().loop_kinds);
        assert(r@.for_kinds =~= java_grammar().for_kinds);
        assert(r@.return_kinds =~= java_grammar().return_kinds);
        assert(r@.throw_kinds =~= java_grammar().throw_kinds);
        assert(r@.break_kinds =~= java_grammar().break_kinds);
        assert(r@.continue_kinds =~= java_grammar().continue_kinds);
        assert(r@.break_texts =~= java_grammar().break_texts);
        assert(r@.continue_texts =~= java_grammar().continue_texts);
        assert(r@.identifier_kinds =~= java_grammar().identifier_kinds);
        assert(r@.match_kinds =~= java_grammar().match_kinds);
        assert(r@.match_arm_kinds =~= java_grammar().match_arm_kinds);
        assert(r@.try_kinds =~= java_grammar().try_kinds);
        assert(r@.catch_kinds =~= java_grammar().catch_kinds);
        assert(r@.closure_kinds =~= java_grammar().closure_kinds);
    }
    r
}

/// The vocabulary of Kotlin.
pub open spec fn kotlin_grammar() -> Grammar {
    Grammar {
        generator: "vikt-ts/tree-sitter-kotlin"@,
        block_scoped: true,
        function_kinds: seq!["function_declaration"@],
        function_name_field: "name"@,
        function_params_field: ""@,
        function_params_kind: "function_value_parameters"@,
        function_body_field: ""@,
        function_body_kind: "function_body"@,
        class_kinds: seq!["class_declaration"@],
        class_name_field: "name"@,
        class_body_field: ""@,
        class_body_kind: "class_body"@,
        receiver_field: ""@,
        receiver_type_field: ""@,
        receiver_pointer_kind: ""@,
        block_kinds: seq!["block"@],
        wrapper_kinds: seq!["function_body"@],
        flatten_kinds: Seq::empty(),
        binding_kinds: seq!["property_declaration"@],
        binding_pattern_field: ""@,
        binding_pattern_kind: "variable_declaration"@,
        binding_value_field: ""@,
        binding_alt_field: ""@,
        binding_declarator_field: ""@,
        binding_declarator_name_field: ""@,
        binding_declarator_value_field: ""@,
        binding_kinds2: Seq::empty(),
        binding_pattern_field2: ""@,
        binding_value_field2: ""@,
        assign_kinds: seq!["assignment"@],
        compound_assign_kinds: Seq::empty(),
        assign_operator_field: "operator"@,
        assign_declares: false,
        assign_left_field: "left"@,
        assign_right_field: "right"@,
        list_kind: ""@,
        call_kinds: seq!["call_expression"@],
        call_callee_field: ""@,
        call_object_field: ""@,
        call_name_field: ""@,
        member_access_kinds: seq!["navigation_expression"@],
        member_object_field: ""@,
        member_property_field: ""@,
        if_kinds: seq!["if_expression"@],
        if_cond_field: "condition"@,
        if_then_field: ""@,
        if_alt_field: ""@,
        elif_kind: None,
        while_kinds: seq!["while_statement"@],
        while_cond_field: "condition"@,
        while_body_field: ""@,
        loop_kinds: Seq::empty(),
        loop_body_field: ""@,
        for_kinds: seq!["for_statement"@],
        for_pattern_field: ""@,
        for_value_field: ""@,
        for_body_field: ""@,
        for_range_kind: ""@,
        for_clause_kind: ""@,
        return_kinds: seq!["return_expression"@],
        throw_kinds: seq!["throw_expression"@],
        break_kinds: Seq::empty(),
        continue_kinds: Seq::empty(),
        break_texts: seq!["break"@],
        continue_texts: seq!["continue"@],
        identifier_kinds: seq!["identifier"@],
        match_kinds: seq!["when_expression"@],
        match_subject_field: ""@,
        match_subject_kind: "when_subject"@,
        match_body_field: ""@,
        match_body_kind: ""@,
        match_arm_kinds: seq!["when_entry"@],
        match_arm_pattern_field: "condition"@,
        match_arm_pattern_kind: ""@,
        match_arm_pattern_multi: true,
        match_arm_pattern_declares: false,
        match_arm_guard_field: ""@,
        match_pattern_guard_field: ""@,
        try_kinds: seq!["try_expression"@],
        try_body_field: ""@,
        try_body_kind: "block"@,
        catch_kinds: seq!["catch_block"@],
        catch_body_field: ""@,
        catch_body_kind: "block"@,
        catch_param_kind: "identifier"@,
        catch_param_name_field: ""@,
        catch_param_as_field: ""@,
        catch_param_as_pattern_kind: ""@,
        catch_param_alias_field: ""@,
        try_else_kind: ""@,
        try_else_body_field: ""@,
        finally_kind: "finally_block"@,
        finally_body_field: ""@,
        finally_body_kind: "block"@,
        closure_kinds: seq!["lambda_literal"@],
        closure_params_field: ""@,
        closure_params_kind: "lambda_parameters"@,
        closure_body_field: ""@,
        closure_body_kind: ""@,
        closure_body_is_bare_children: true,
        closure_name_format: "{owner}::{lambda#{idx}}"@,
    }
}

/// The vocabulary of Kotlin.
pub fn kotlin_table() -> (r: GrammarTable)
    ensures
        r@ == kotlin_grammar(),
{
    let r = GrammarTable {
        generator: "vikt-ts/tree-sitter-kotlin",
        block_scoped: true,
        function_kinds: &["function_declaration"],
        function_name_field: "name",
        function_params_field: "",
        function_params_kind: "function_value_parameters",
        function_body_field: "",
        function_body_kind: "function_body",
        class_kinds: &["class_declaration"],
        class_name_field: "name",
        class_body_field: "",
        class_body_kind: "class_body",
        receiver_field: "",
        receiver_type_field: "",
        receiver_pointer_kind: "",
        block_kinds: &["block"],
        wrapper_kinds: &["function_body"],
        flatten_kinds: &[],
        binding_kinds: &["property_declaration"],
        binding_pattern_field: "",
        binding_pattern_kind: "variable_declaration",
        binding_value_field: "",
        binding_alt_field: "",
        binding_declarator_field: "",
        binding_declarator_name_field: "",
        binding_declarator_value_field: "",
        binding_kinds2: &[],
        binding_pattern_field2: "",
        binding_value_field2: "",
        assign_kinds: &["assignment"],
        compound_assign_kinds: &[],
        assign_operator_field: "operator",
        assign_declares: false,
        assign_left_field: "left",
        assign_right_field: "right",
        list_kind: "",
        call_kinds: &["call_expression"],
        call_callee_field: "",
        call_object_field: "",
        call_name_field: "",
        member_access_kinds: &["navigation_expression"],
        member_object_field: "",
        member_property_field: "",
        if_kinds: &["if_expression"],
        if_cond_field: "condition",
        if_then_field: "",
        if_alt_field: "",
        elif_kind: None,
        while_kinds: &["while_statement"],
        while_cond_field: "condition",
        while_body_field: "",
        loop_kinds: &[],
        loop_body_field: "",
        for_kinds: &["for_statement"],
        for_pattern_field: "",
        for_value_field: "",
        for_body_field: "",
        for_range_kind: "",
        for_clause_kind: "",
        return_kinds: &["return_expression"],
        throw_kinds: &["throw_expression"],
        break_kinds: &[],
        continue_kinds: &[],
        break_texts: &["break"],
        continue_texts: &["continue"],
        identifier_kinds: &["identifier"],
        match_kinds: &["when_expression"],
        match_subject_field: "",
        match_subject_kind: "when_subject",
        match_body_field: "",
        match_body_kind: "",
        match_arm_kinds: &["when_entry"],
        match_arm_pattern_field: "condition",
        match_arm_pattern_kind: "",
        match_arm_pattern_multi: true,
        match_arm_pattern_declares: false,
        match_arm_guard_field: "",
        match_pattern_guard_field: "",
        try_kinds: &["try_expression"],
        try_body_field: "",
        try_body_kind: "block",
        catch_kinds: &["catch_block"],
        catch_body_field: "",
        catch_body_kind: "block",
        catch_param_kind: "identifier",
        catch_param_name_field: "",
        catch_param_as_field: "",
        catch_param_as_pattern_kind: "",
        catch_param_alias_field: "",
        try_else_kind: "",
        try_else_body_field: "",
        finally_kind: "finally_block",
        finally_body_field: "",
        finally_body_kind: "block",
        closure_kinds: &["lambda_literal"],
        closure_params_field: "",
        closure_params_kind: "lambda_parameters",
        closure_body_field: "",
        closure_body_kind: "",
        closure_body_is_bare_children: true,
        closure_name_format: "{owner}::{lambda#{idx}}",
    };
    proof {
        assert(r@.function_kinds =~= kotlin_grammar().function_kinds);
        assert(r@.class_kinds =~= kotlin_grammar().class_kinds);
        assert(r@.block_kinds =~= kotlin_grammar().block_kinds);
        assert(r@.wrapper_kinds =~= kotlin_grammar().wrapper_kinds);
        assert(r@.flatten_kinds =~= kotlin_grammar().flatten_kinds);
        assert(r@.binding_kinds =~= kotlin_grammar().binding_kinds);
        assert(r@.binding_kinds2 =~= kotlin_grammar().binding_kinds2);
        assert(r@.assign_kinds =~= kotlin_grammar().assign_kinds);
        assert(r@.compound_assign_kinds =~= kotlin_grammar().compound_assign_kinds);
        assert(r@.call_kinds =~= kotlin_grammar().call_kinds);
        assert(r@.member_access_kinds =~= kotlin_grammar().member_access_kinds);
        assert(r@.if_kinds =~= kotlin_grammar().if_kinds);
        assert(r@.while_kinds =~= kotlin_grammar().while_kinds);
        assert(r@.loop_kinds =~= kotlin_grammar().loop_kinds);
        assert(r@.for_kinds =~= kotlin_grammar().for_kinds);
        assert(r@.return_kinds =~= kotlin_grammar().return_kinds);
        assert(r@.throw_kinds =~= kotlin_grammar().throw_kinds);
        assert(r@.break_kinds =~= kotlin_grammar().break_kinds);
        assert(r@.continue_kinds =~= kotlin_grammar().continue_kinds);
        assert(r@.break_texts =~= kotlin_grammar().break_texts);
        assert(r@.continue_texts =~= kotlin_grammar().continue_texts);
        assert(r@.identifier_kinds =~= kotlin_grammar().identifier_kinds);
        assert(r@.match_kinds =~= kotlin_grammar().match_kinds);
        assert(r@.match_arm_kinds =~= kotlin_grammar().match_arm_kinds);
        assert(r@.try_kinds =~= kotlin_grammar().try_kinds);
        assert(r@.catch_kinds =~= kotlin_grammar().catch_kinds);
        assert(r@.closure_kinds =~= kotlin_grammar().closure_kinds);
    }
    r
}

/// The vocabulary of Go.
pub open spec fn go_grammar() -> Grammar {
    Grammar {
        generator: "vikt-ts/tree-sitter-go"@,
        block_scoped: true,
        function_kinds: seq!["function_declaration"@, "method_declaration"@],
        function_name_field: "name"@,
        function_params_field: "parameters"@,
        function_params_kind: ""@,
        function_body_field: "body"@,
        function_body_kind: ""@,
        class_kinds: Seq::empty(),
        class_name_field: ""@,
        class_body_field: ""@,
        class_body_kind: ""@,
        receiver_field: "receiver"@,
        receiver_type_field: "type"@,
        receiver_pointer_kind: "pointer_type"@,
        block_kinds: seq!["block"@, "statement_list"@],
        wrapper_kinds: seq!["expression_statement"@],
        flatten_kinds: seq!["var_declaration"@, "var_spec_list"@, "const_declaration"@],
        binding_kinds: seq![
            "short_var_declaration"@,
            "receive_statement"@,
            "var_spec"@,
            "const_spec"@,
        ],
        binding_pattern_field: "left"@,
        binding_pattern_kind: ""@,
        binding_value_field: "right"@,
        binding_alt_field: ""@,
        binding_declarator_field: ""@,
        binding_declarator_name_field: ""@,
        binding_declarator_value_field: ""@,
        binding_kinds2: seq!["var_spec"@, "const_spec"@],
        binding_pattern_field2: "name"@,
        binding_value_field2: "value"@,
        assign_kinds: seq!["assignment_statement"@],
        compound_assign_kinds: Seq::empty(),
        assign_operator_field: "operator"@,
        assign_declares: false,
        assign_left_field: "left"@,
        assign_right_field: "right"@,
        list_kind: "expression_list"@,
        call_kinds: seq!["call_expression"@],
        call_callee_field: "function"@,
        call_object_field: ""@,
        call_name_field: ""@,
        member_access_kinds: seq!["selector_expression"@],
        member_object_field: "operand"@,
        member_property_field: "field"@,
        if_kinds: seq!["if_statement"@],
        if_cond_field: "condition"@,
        if_then_field: "consequence"@,
        if_alt_field: "alternative"@,
        elif_kind: None,
        while_kinds: Seq::empty(),
        while_cond_field: ""@,
        while_body_field: "body"@,
        loop_kinds: Seq::empty(),
        loop_body_field: "body"@,
        for_kinds: seq!["for_statement"@],
        for_pattern_field: "left"@,
        for_value_field: "right"@,
        for_body_field: "body"@,
        for_range_kind: "range_clause"@,
        for_clause_kind: "for_clause"@,
        return_kinds: seq!["return_statement"@],
        throw_kinds: Seq::empty(),
        break_kinds: seq!["break_statement"@],
        continue_kinds: seq!["continue_statement"@],
        break_texts: Seq::empty(),
        continue_texts: Seq::empty(),
        identifier_kinds: seq!["identifier"@],
        match_kinds: seq!["expression_switch_statement"@, "select_statement"@],
        match_subject_field: "value"@,
        match_subject_kind: ""@,
        match_body_field: ""@,
        match_body_kind: ""@,
        match_arm_kinds: seq!["expression_case"@, "default_case"@, "communication_case"@],
        match_arm_pattern_field: "value"@,
        match_arm_pattern_kind: ""@,
        match_arm_pattern_multi: false,
        match_arm_pattern_declares: false,
        match_arm_guard_field: ""@,
        match_pattern_guard_field: ""@,
        try_kinds: Seq::empty(),
        try_body_field: ""@,
        try_body_kind: ""@,
        catch_kinds: Seq::empty(),
        catch_body_field: ""@,
        catch_body_kind: ""@,
        catch_param_kind: ""@,
        catch_param_name_field: ""@,
        catch_param_as_field: ""@,
        catch_param_as_pattern_kind: ""@,
        catch_param_alias_field: ""@,
        try_else_kind: ""@,
        try_else_body_field: ""@,
        finally_kind: ""@,
        finally_body_field: ""@,
        finally_body_kind: ""@,
        closure_kinds: Seq::empty(),
        closure_params_field: ""@,
        closure_params_kind: ""@,
        closure_body_field: ""@,
        closure_body_kind: ""@,
        closure_body_is_bare_children: false,
        closure_name_format: ""@,
    }
}

/// The vocabulary of Go.
pub fn go_table() -> (r: GrammarTable)
    ensures
        r@ == go_grammar(),
{
    let r = GrammarTable {
        generator: "vikt-ts/tree-sitter-go",
        block_scoped: true,
        function_kinds: &["function_declaration", "method_declaration"],
        function_name_field: "name",
        function_params_field: "parameters",
        function_params_kind: "",
        function_body_field: "body",
        function_body_kind: "",
        class_kinds: &[],
        class_name_field: "",
        class_body_field: "",
        class_body_kind: "",
        receiver_field: "receiver",
        receiver_type_field: "type",
        receiver_pointer_kind: "pointer_type",
        block_kinds: &["block", "statement_list"],
        wrapper_kinds: &["expression_statement"],
        flatten_kinds: &["var_declaration", "var_spec_list", "const_declaration"],
        binding_kinds: &["short_var_declaration", "receive_statement", "var_spec", "const_spec"],
        binding_pattern_field: "left",
        binding_pattern_kind: "",
        binding_value_field: "right",
        binding_alt_field: "",
        binding_declarator_field: "",
        binding_declarator_name_field: "",
        binding_declarator_value_field: "",
        binding_kinds2: &["var_spec", "const_spec"],
        binding_pattern_field2: "name",
        binding_value_field2: "value",
        assign_kinds: &["assignment_statement"],
        compound_assign_kinds: &[],
        assign_operator_field: "operator",
        assign_declares: false,
        assign_left_field: "left",
        assign_right_field: "right",
        list_kind: "expression_list",
        call_kinds: &["call_expression"],
        call_callee_field: "function",
        call_object_field: "",
        call_name_field: "",
        member_access_kinds: &["selector_expression"],
        member_object_field: "operand",
        member_property_field: "field",
        if_kinds: &["if_statement"],
        if_cond_field: "condition",
        if_then_field: "consequence",
        if_alt_field: "alternative",
        elif_kind: None,
        while_kinds: &[],
        while_cond_field: "",
        while_body_field: "body",
        loop_kinds: &[],
        loop_body_field: "body",
        for_kinds: &["for_statement"],
        for_pattern_field: "left",
        for_value_field: "right",
        for_body_field: "body",
        for_range_kind: "range_clause",
        for_clause_kind: "for_clause",
        return_kinds: &["return_statement"],
        throw_kinds: &[],
        break_kinds: &["break_statement"],
        continue_kinds: &["continue_statement"],
        break_texts: &[],
        continue_texts: &[],
        identifier_kinds: &["identifier"],
        match_kinds: &["expression_switch_statement", "select_statement"],
        match_subject_field: "value",
        match_subject_kind: "",
        match_body_field: "",
        match_body_kind: "",
        match_arm_kinds: &["expression_case", "default_case", "communication_case"],
        match_arm_pattern_field: "value",
        match_arm_pattern_kind: "",
        match_arm_pattern_multi: false,
        match_arm_pattern_declares: false,
        match_arm_guard_field: "",
        match_pattern_guard_field: "",
        try_kinds: &[],
        try_body_field: "",
        try_body_kind: "",
        catch_kinds: &[],
        catch_body_field: "",
        catch_body_kind: "",
        catch_param_kind: "",
        catch_param_name_field: "",
        catch_param_as_field: "",
        catch_param_as_pattern_kind: "",
        catch_param_alias_field: "",
        try_else_kind: "",
        try_else_body_field: "",
        finally_kind: "",
        finally_body_field: "",
        finally_body_kind: "",
        closure_kinds: &[],
        closure_params_field: "",
        closure_params_kind: "",
        closure_body_field: "",
        closure_body_kind: "",
        closure_body_is_bare_children: false,
        closure_name_format: "",
    };
    proof {
        assert(r@.function_kinds =~= go_grammar().function_kinds);
        assert(r@.class_kinds =~= go_grammar().class_kinds);
        assert(r@.block_kinds =~= go_grammar().block_kinds);
        assert(r@.wrapper_kinds =~= go_grammar().wrapper_kinds);
        assert(r@.flatten_kinds =~= go_grammar().flatten_kinds);
        assert(r@.binding_kinds =~= go_grammar().binding_kinds);
        assert(r@.binding_kinds2 =~= go_grammar().binding_kinds2);
        assert(r@.assign_kinds =~= go_grammar().assign_kinds);
        assert(r@.compound_assign_kinds =~= go_grammar().compound_assign_kinds);
        assert(r@.call_kinds =~= go_grammar().call_kinds);
        assert(r@.member_access_kinds =~= go_grammar().member_access_kinds);
        assert(r@.if_kinds =~= go_grammar().if_kinds);
        assert(r@.while_kinds =~= go_grammar().while_kinds);
        assert(r@.loop_kinds =~= go_grammar().loop_kinds);
        assert(r@.for_kinds =~= go_grammar().for_kinds);
        assert(r@.return_kinds =~= go_grammar().return_kinds);
        assert(r@.throw_kinds =~= go_grammar().throw_kinds);
        assert(r@.break_kinds =~= go_grammar().break_kinds);
        assert(r@.continue_kinds =~= go_grammar().continue_kinds);
        assert(r@.break_texts =~= go_grammar().break_texts);
        assert(r@.continue_texts =~= go_grammar().continue_texts);
        assert(r@.identifier_kinds =~= go_grammar().identifier_kinds);
        assert(r@.match_kinds =~= go_grammar().match_kinds);
        assert(r@.match_arm_kinds =~= go_grammar().match_arm_kinds);
        assert(r@.try_kinds =~= go_grammar().try_kinds);
        assert(r@.catch_kinds =~= go_grammar().catch_kinds);
        assert(r@.closure_kinds =~= go_grammar().closure_kinds);
    }
    r
}

} // verus!
