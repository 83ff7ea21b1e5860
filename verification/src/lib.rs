//! A verified interpreter pipeline for a tiny eight-instruction tape
//! language: a lexer turning source text into tokens, a recursive-descent
//! parser fusing runs of same-class tokens into run-length nodes, and an
//! evaluator walking the tree against a growable byte tape.

pub mod ast;
pub mod interp;
pub mod lexer;
pub mod parser;

pub use ast::AstNode;
pub use ast::Node;
pub use ast::node_view;
pub use ast::nodes_view;

pub use lexer::Token;
pub use lexer::is_instruction;
pub use lexer::lemma_lex_ignores_comments;
pub use lexer::lex;
pub use lexer::spec_lex;
pub use lexer::token_of;

pub use parser::ParseError;
pub use parser::ParseTail;
pub use parser::Parser;
pub use parser::add_delta;
pub use parser::add_run_len;
pub use parser::add_run_sum;
pub use parser::is_add_token;
pub use parser::is_shift_token;
pub use parser::lemma_move_run_fuses;
pub use parser::lemma_parse_well_fused;
pub use parser::lemma_subparse_close_bounds;
pub use parser::parse;
pub use parser::prepend;
pub use parser::same_fuse_class;
pub use parser::shift_delta;
pub use parser::shift_run_len;
pub use parser::shift_run_sum;
pub use parser::spec_parse;
pub use parser::spec_subparse;
pub use parser::well_fused;

pub use interp::Interpreter;
pub use interp::RunError;
pub use interp::RunOutcome;
pub use interp::RunState;
pub use interp::add_wrap;
pub use interp::eval_node;
pub use interp::eval_nodes;
pub use interp::grow_to;
pub use interp::initial_state;
pub use interp::interpret;
pub use interp::lemma_add_wrap_in_range;
pub use interp::lemma_loop_runs_k_times;
pub use interp::lemma_run_fuel_monotone;
pub use interp::state_wf;
pub use interp::lemma_eval_node_preserves_wf;
pub use interp::lemma_eval_nodes_preserves_wf;
pub use interp::loop_iter;
pub use interp::spec_run;
