//! Command-specific payload shapes of the protocol. The transport core
//! treats every payload as opaque; these types name the shapes that the
//! command-semantics layer reads out of or writes into those payloads, so
//! they carry no logic of their own here.

use vstd::prelude::*;
use std::collections::HashMap;

verus! {

/// Arguments of the initialize request.
#[derive(Debug)]
pub struct InitializeRequestArguments {
    pub client_id: Option<String>,
    pub client_name: Option<String>,
    pub adapter_id: Option<String>,
    pub locale: Option<String>,
    pub line_start_at1: Option<bool>,
    pub column_start_at1: Option<bool>,
    pub path_format: Option<String>,
    pub supports_variable_type: Option<bool>,
    pub supports_variable_paging: Option<bool>,
    pub supports_run_in_terminal_request: Option<bool>,
    pub supports_memory_references: Option<bool>,
    pub supports_progress_reporting: Option<bool>,
    pub supports_invalidated_event: Option<bool>,
}

/// Body of the initialize response: the adapter's capabilities.
#[derive(Debug)]
pub struct InitializeResponseBody {
    pub supports_configuration_done_request: bool,
    pub supports_function_breakpoints: bool,
    pub supports_conditional_breakpoints: bool,
    pub supports_hit_conditional_breakpoints: bool,
    pub supports_evaluate_for_hovers: bool,
    pub supports_step_back: bool,
    pub supports_set_variable: bool,
    pub supports_restart_frame: bool,
    pub supports_goto_targets_request: bool,
    pub supports_step_in_targets_request: bool,
    pub supports_completions_request: bool,
    pub supports_modules_request: bool,
    pub supports_restart_request: bool,
    pub supports_exception_options: bool,
    pub supports_value_formatting_options: bool,
    pub supports_terminate_request: bool,
    pub supports_terminate_threads_request: bool,
    pub supports_data_breakpoints: bool,
    pub supports_read_memory_request: bool,
    pub supports_write_memory_request: bool,
    pub supports_disassemble_request: bool,
    pub supports_cancel_request: bool,
    pub supports_breakpoint_locations_request: bool,
    pub supports_clipboard_context: bool,
    pub supports_stepping_granularity: bool,
    pub supports_instruction_breakpoints: bool,
    pub supports_exception_filter_options: bool,
}

/// Arguments of the launch request.
#[derive(Debug)]
pub struct LaunchRequestArguments {
    pub program: String,
    pub args: Option<Vec<String>>,
    pub stop_on_entry: Option<bool>,
    pub cwd: Option<String>,
    pub env: Option<HashMap<String, String>>,
}

/// One breakpoint a client asks for in a source file.
#[derive(Debug)]
pub struct SourceBreakpoint {
    pub line: i64,
    pub column: Option<i64>,
    pub condition: Option<String>,
    pub hit_condition: Option<String>,
    pub log_message: Option<String>,
}

/// A source file as the protocol names it.
#[derive(Debug)]
pub struct Source {
    pub name: Option<String>,
    pub path: Option<String>,
    pub source_reference: Option<i64>,
}

/// Arguments of the set-breakpoints request.
#[derive(Debug)]
pub struct SetBreakpointsArguments {
    pub source: Source,
    pub breakpoints: Option<Vec<SourceBreakpoint>>,
    pub lines: Option<Vec<i64>>,
    pub source_modified: Option<bool>,
}

/// One breakpoint as the debuggee side reports it back.
#[derive(Debug)]
pub struct Breakpoint {
    pub id: Option<i64>,
    pub verified: bool,
    pub message: Option<String>,
    pub source: Option<Source>,
    pub line: Option<i64>,
    pub column: Option<i64>,
}

/// Body of the set-breakpoints response.
#[derive(Debug)]
pub struct SetBreakpointsResponseBody {
    pub breakpoints: Vec<Breakpoint>,
}

/// One thread of the debuggee.
#[derive(Debug)]
pub struct Thread {
    pub id: i64,
    pub name: String,
}

/// Body of the threads response.
#[derive(Debug)]
pub struct ThreadsResponseBody {
    pub threads: Vec<Thread>,
}

/// Formatting options for stack frames.
#[derive(Debug)]
pub struct StackFrameFormat {
    pub parameters: Option<bool>,
    pub parameter_types: Option<bool>,
    pub parameter_names: Option<bool>,
    pub parameter_values: Option<bool>,
    pub line: Option<bool>,
    pub module: Option<bool>,
    pub include_all: Option<bool>,
}

/// Arguments of the stack-trace request.
#[derive(Debug)]
pub struct StackTraceArguments {
    pub thread_id: i64,
    pub start_frame: Option<i64>,
    pub levels: Option<i64>,
    pub format: Option<StackFrameFormat>,
}

/// One stack frame.
#[derive(Debug)]
pub struct StackFrame {
    pub id: i64,
    pub name: String,
    pub source: Option<Source>,
    pub line: i64,
    pub column: i64,
    pub module_id: Option<String>,
    pub presentation_hint: Option<String>,
}

/// Body of the stack-trace response.
#[derive(Debug)]
pub struct StackTraceResponseBody {
    pub stack_frames: Vec<StackFrame>,
    pub total_frames: Option<i64>,
}

/// Body of the stopped event.
#[derive(Debug)]
pub struct StoppedEventBody {
    pub reason: String,
    pub description: Option<String>,
    pub thread_id: Option<i64>,
    pub preserve_focus_hint: Option<bool>,
    pub text: Option<String>,
    pub all_threads_stopped: Option<bool>,
    pub hit_breakpoint_ids: Option<Vec<i64>>,
}

/// One variable scope.
#[derive(Debug)]
pub struct Scope {
    pub name: String,
    pub variables_reference: i64,
    pub expensive: bool,
    pub named_variables: Option<i64>,
    pub indexed_variables: Option<i64>,
    pub source: Option<Source>,
    pub line: Option<i64>,
    pub column: Option<i64>,
}

/// Body of the scopes response.
#[derive(Debug)]
pub struct ScopesResponseBody {
    pub scopes: Vec<Scope>,
}

/// How a variable should be presented.
#[derive(Debug)]
pub struct VariablePresentationHint {
    pub kind: Option<String>,
    pub attributes: Option<Vec<String>>,
    pub visibility: Option<String>,
}

/// One variable.
#[derive(Debug)]
pub struct Variable {
    pub name: String,
    pub value: String,
    pub type_field: Option<String>,
    pub presentation_hint: Option<VariablePresentationHint>,
    pub variables_reference: i64,
    pub named_variables: Option<i64>,
    pub indexed_variables: Option<i64>,
    pub memory_reference: Option<String>,
}

/// Body of the variables response.
#[derive(Debug)]
pub struct VariablesResponseBody {
    pub variables: Vec<Variable>,
}

} // verus!
