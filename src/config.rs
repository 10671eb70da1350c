//! Settings of a run, the per-library configuration, and the prompt
//! templates with the library-specific rules they carry.
use vstd::prelude::*;

use crate::text::{replace_all, replace_str};

verus! {

/// What the generator writes.
#[derive(Debug, Clone, Copy, PartialEq, Eq, Structural)]
pub enum GenerationModeP {
    /// A libFuzzer fuzz driver.
    FuzzDriver,
    /// A function that calls a combination of the library's APIs.
    ApiCombination,
}

/// Which generator client to use.
#[derive(Debug, Clone, Copy, PartialEq, Eq, Structural)]
pub enum HandlerType {
    /// The official chat-completion client.
    Openai,
    /// The plain HTTP client.
    Http,
}

/// The settings of a run (the sampling temperature aside).
pub struct RunConfig {
    pub generation_mode: GenerationModeP,
    pub target: String,
    pub n_sample: u8,
    pub disable_power_schedule: bool,
    pub fuzz_round_succ: usize,
    pub fuzz_converge_round: usize,
    pub cores: usize,
    pub max_cores: usize,
    pub exponent_branch: bool,
    pub recheck: bool,
    pub fuzzer_run: bool,
    pub handler_type: HandlerType,
    pub seed_gen_timeout: Option<u64>,
    pub quiet_round: usize,
    pub num_new_pairs: usize,
    pub enable_cot: bool,
}

/// The generator service's settings from the environment.
pub struct OpenAiEnv {
    pub model_name: String,
    pub context_limit: Option<u32>,
    pub proxy_base: Option<String>,
}

/// The model to ask.
pub fn get_openai_model_name(env: &OpenAiEnv) -> (r: String)
    ensures
        r@ == env.model_name@,
{
    env.model_name.clone()
}

/// The model's context limit, if one is set.
pub fn get_openai_context_limit(env: &OpenAiEnv) -> (r: Option<u32>)
    ensures
        r == env.context_limit,
{
    env.context_limit
}

/// The proxy base URL, if one is set.
pub fn get_openai_proxy(env: &OpenAiEnv) -> (r: Option<String>)
    ensures
        r matches Some(p) ==> env.proxy_base matches Some(q) && p@ == q@,
        r is None <==> env.proxy_base is None,
{
    match &env.proxy_base {
        Some(p) => Some(p.clone()),
        None => None,
    }
}

/// The library under test.
pub fn get_library_name(config: &RunConfig) -> (r: String)
    ensures
        r@ == config.target@,
{
    config.target.clone()
}

/// Programs asked for per request.
pub fn get_sample_num(config: &RunConfig) -> (r: u8)
    ensures
        r == config.n_sample,
{
    config.n_sample
}

/// The generator client to use.
pub fn get_handler_type(config: &RunConfig) -> (r: HandlerType)
    ensures
        r == config.handler_type,
{
    config.handler_type
}

/// Whether chain-of-thought generation is on.
pub fn is_cot_enabled(config: &RunConfig) -> (r: bool)
    ensures
        r == config.enable_cot,
{
    config.enable_cot
}

/// The configuration of one library.
pub struct LibConfig {
    pub project_name: String,
    pub static_lib_name: String,
    pub dyn_lib_name: String,
    pub ban: Option<Vec<String>>,
    pub null_term: Option<bool>,
    pub extra_c_flags: Option<Vec<String>>,
    pub landmark: Option<bool>,
    pub force_types: Option<Vec<String>>,
    pub fuzz_fork: Option<bool>,
    pub desc: Option<String>,
    pub spec: Option<String>,
    pub init_file: Option<String>,
    pub asan_option: Option<String>,
    pub disable_fmemopen: Option<bool>,
    pub rss_limit_mb: Option<usize>,
}

impl LibConfig {
    /// Whether fuzzer input should end with a null byte (not unless set).
    pub fn should_terminate_with_null(&self) -> (r: bool)
        ensures
            r == (self.null_term == Some(true)),
    {
        match self.null_term {
            Some(t) => t,
            None => false,
        }
    }
}

pub const SYSTEM_GEN_TEMPLATE: &'static str = "Act as a C++ langauge Developer, write a fuzz driver that follow user's instructions.
The prototype of fuzz dirver is: `extern \"C\" int LLVMFuzzerTestOneInput(const uint8_t data, size_t size)`.
\n";

pub const SYSTEM_API_TEMPLATE: &'static str = "Act as an API usage synthesizer. Generate valid combinations of available APIs from the target library, ensuring there are no logical or syntactical errors in the code.
";

pub const SYSTEM_CONTEXT_TEMPLATE: &'static str = "
The fuzz dirver should focus on the usage of the {project} library, and several essential aspects of the library are provided below.
Here are the system headers included in {project}. You can utilize the public elements of these headers:
----------------------
{headers}
----------------------

Here are the APIs exported from {project}. You are encouraged to use any of the following APIs once you need to create, initialize or destory variables:
----------------------
{APIs}
----------------------

Here are the custom types declared in {project}. Ensure that the variables you use do not violate declarations:
----------------------
{context}
----------------------
";

pub const ERROR_REPAIR_TEMPLATE: &'static str = "The previous attempt to generate code failed with the following error:

Error code:{error_code}
Error Type: {error_type}
Error Details:{error_details}
Please regenerate a new program to repair the error without changing the logic, do not redefine main function and any other parameters even if the error is not defined, and do not change the function name.
If error type is execution error without error details, you can regard it as Segmentation fault (core dumped)
Do not include if branches or loops; the function should be a straight-line sequence of API calls.
";

pub const USER_API_TEMPLATE: &'static str = "Your task is to write a complete, logically correct C++ function named `int test_{project}_api_sequence()` using the {project} library.

The API sequence should focus on the usage of the {project} library, and several essential aspects of the library are provided below.

Here are the system headers included in {project}. You can utilize the public elements of these headers:
----------------------
{headers}
----------------------

Here are the APIs exported from {project}. You are encouraged to use any of the following APIs once you need to create, initialize or destroy variables:
----------------------
{APIs}
----------------------

Here are the custom types declared in {project}. Ensure that the variables you use do not violate declarations:
----------------------
{context}
----------------------

Use the following APIs in your function:
{combinations}
Here are some successful examples:
{successful_examples}
Function Requirements:
1. The function must return `66` on success.  
2. Do not include if branches or loops; the function should be a straight-line sequence of API calls.
3. You must not redefine or include the {project} library.  
4. Do not use `std::memset`; use plain `memset`.  do not create new functions, use the existing APIs.
5. The function must end with:
   API sequence test completed successfully
6. When you enter a new phase, use `// step ...` to indicate the phase. different operations are in different steps, steps cannot exceed 4

Below is project's specific rules:
{project_rules}

Code Quality Rules:
- The function must be self-contained: declare, initialize, and clean up all variables and resources.
- The API sequence should follow a realistic and complete usage pattern:
  - Initialize → Configure → Operate → Validate → Cleanup
- Ensure that data flows meaningfully between API calls (no dummy or unused variables).
- Do not use placeholders like `// your code here`.
- No comments needed — just clean and understandable code.
- If you have to write any helper functions, begin them with static
Output Instructions:

Only output the function body `int test_{project}_api_sequence() { ... }`  
No `#include` directives or `main()` function.

Example Outline:
```cpp
int test_{project}_api_sequence() {
    // Step 1: Declarations
    // Step 2: Setup
    // Step 3: Core operations
    // Step ...
    // step ... : Cleanup
    return 66;
}
```";

pub const USER_GEN_TEMPLATE: &'static str = "Create a C language program step by step by using {project} library APIs and following the instructions below:
1. Here are several APIs in {project}. Specific an event that those APIs could achieve together, if the input is a byte stream of {project}' output data.
{combinations}; 
2. Complete the LLVMFuzzerTestOneInput function to achieve this event by using those APIs. Each API should be called at least once, if possible.
3. The input data and its size are passed as parameters of LLVMFuzzerTestOneInput: `const uint8_t *data` and `size_t size`. They must be consumed by the {project} APIs.
4. Once you need a `FILE *` variable to read the input data, using `FILE * in_file = fmemopen((void *)data, size, \"rb\")` to produce a `FILE *` variable.
   Once you need a `FILE *` variable to write output data, using `FILE * out_file = fopen(\"output_file\", \"wb\")` to produce a `FILE *` variable.
5. Once you need a `int` type file descriptor, using `fileno(in_file)` or `fileno(out_file)` to produce a file descriptor for reading or writing. 
6. Once you just need a string of file name, directly using \"input_file\" or \"output_file\" as the file name.
7. Release all allocated resources before return.
";

pub const USER_API_COT_PLAN_TEMPLATE: &'static str = "

Use the following APIs in your plan:
{combinations}

**IMPORTANT: Do NOT write code in this step. Only write a detailed natural language execution plan.**

Please create a detailed execution plan (in natural language, not code) for generating a C function `int test_{project}_api_sequence()` that uses the above APIs.

Your execution plan should:
1. List the main API names (not their full declarations - they're already in library headers)
2. If auxiliary/helper APIs are needed (for setup/cleanup), just mention their names
3. Describe step-by-step how to use these APIs following the pattern: Initialize → Configure → Operate → Cleanup
4. Explain the logic and data flow between API calls
5. Be detailed enough that code can be generated from it in the next phase

**CRITICAL:** In the next phase, the generated code will:
- Include the library header file (e.g., #include <lcms2.h>)
- All types, structs, and function prototypes are ALREADY defined in the library headers
- The code should NOT redeclare types, use extern blocks, or redefine function prototypes
- Only the function implementation should be written

Requirements for the final code (describe how to meet these in your plan):
- Function must return 66 on success
- No if branches or loops; straight-line sequence of API calls only
- Must not redefine types or function declarations (library headers provide everything)
- Do not use std::memset; use plain memset
- Do not create new functions, use existing APIs
- Function must end with: API sequence test completed successfully
- Divide into steps (no more than 3 steps)
- Every build function should not pass 0 or NULL as parameters

Output format:
Write a natural language description explaining:
- What variables need to be declared (e.g., \"cmsHPROFILE hProfile\")
- What each step should do
- How data flows between API calls
- What cleanup is needed

**Do NOT write actual C/C++ code, type definitions, or function prototypes. Only write the execution plan in natural language.**

";

pub const USER_API_COT_CODE_TEMPLATE: &'static str = "
Based on the following execution plan, write a complete, logically correct C++ function named `int test_{project}_api_sequence()`.
Do not include if branches or loops; the function should be a straight-line sequence of API calls. Return 66 on success.
Execution Plan:
{execution_plan}

CRITICAL CODE GENERATION RULES:
1. DO NOT declare or redefine any types, structs, or typedefs - All types are already defined in the included library headers
2. DO NOT use extern \"C\" blocks** - The library headers already handle this
3. DO NOT redeclare any function prototypes** - All functions are already declared in the included headers
4. ONLY write the function implementation** - Start directly with: `int test_{project}_api_sequence() {{`
5. DO NOT include any #ifdef, #ifndef, or preprocessor directives** in your code

Your code should ONLY contain:
- The function signature: `int test_{project}_api_sequence()`
- Variable declarations inside the function
- API calls
- Return statement

Below is project's specific rules, the code you generate must follow these rules:
{project_rules}

Here are some successful examples for reference:
{successful_examples}

Again do not include if branches or loops; the function should be a straight-line sequence of API calls.
code example outline:
```cpp
int test_{project}_api_sequence() {{
    // Step 1:
    // Step 2: 
    // Step 3: 
    //printf
    return 66;
}}

Remember: DO NOT declare types, use extern blocks, or redeclare functions. Only write the function body.
";

pub const RAW_RULE: &'static str = "
{project_rules}
";

/// Rules for programs of cre2.
pub const CRE2_RULES: &'static str = "
        1. Do not use CRE2_ANCHOR_UNANCHORED，use CRE2_UNANCHORED instead.
        2. Do not use CRE2_ANCHOR_NONE
        3.int cre2_full_match(const char * , const cre2_string_t * , cre2_string_t * , int ), Please note that cre2_full_match only have 4 parameters, not 5
        4. Please note cre2_decl cre2_set *cre2_set_new(cre2_options_t *opt, cre2_anchor_t anchor) and no known conversion from 'int' to 'cre2_anchor_t' for 2nd argument
        ";

/// Rules for programs of zlib.
pub const ZLIB_RULES: &'static str = "
        1. Do not redefine z_stream_s
        2. Note that #define zlib_version zlibVersion()
        3. If you want to use Z_DEFAULT_WBITS,use MAX_WBITS instead
        ";

/// Rules for programs of lcms.
pub const LCMS_RULES: &'static str = "
        1. Never assign handles (cmsHANDLE, cmsMLU*, cmsToneCurve*, etc.) to integer or malloc() values. Always use official creation APIs (e.g., cmsCIECAM02Init, cmsMLUalloc).
        2. When create cmsViewingConditions, the parameter is cmsCIEXYZ* whitePoint, cmsUInt32Number  surround, not cmsCIEXYZ whitePoint
        3. cmsToneCurve Curve[3] will cause error, you should use offical API to build
        4. When generating or modifying IT8/CGATS inputs, always ensure the memory buffer length is greater than 0 (len > 0) and include a valid file header (e.g., CGATS or IT8) to avoid triggering cmsIT8LoadFromMem assertions.
        5. Example IT8 style: const char* data = IT8.7/1\nDESCRIPTOR \"D\"\nORIGINATOR \"O\"\nKEY;
        ";

/// Rules for programs of libpng.
pub const LIBPNG_RULES: &'static str = "
        1. Never declare variables of type png_info or png_struct directly (e.g., 'png_info info;' is wrong)
        2. Always use pointer types: png_structp, png_infop
        3. Do not use sizeof() on opaque types like png_info or png_struct
        4. Use PNG_LIBPNG_VER_STRING (not version numbers) as the first parameter of png_create_write_struct/png_create_read_struct
        5. CRITICAL: For png_create_write_struct/png_create_read_struct, ALWAYS pass NULL for the 3rd and 4th parameters (error/warning callbacks)
        6. NEVER use png_error, png_warning, or png_benign_error as callback parameters - they will cause compilation errors
        7. Example: png_create_read_struct(PNG_LIBPNG_VER_STRING, NULL, NULL, NULL) - note all NULLs
        8. Use png_create_info_struct() to create info structures
        9. For png_destroy_read_struct, the 2nd and 3rd parameters must be different pointers. Use NULL for the 3rd if you only have one info_ptr
        10. Example: png_destroy_read_struct(&png_ptr, &info_ptr, NULL) - NOT (&png_ptr, &info_ptr, &info_ptr)
        11. Only access structures through official API functions (png_get_*, png_set_*)
        ";

/// Rules for programs of libpcap.
pub const LIBPCAP_RULES: &'static str = "
        1. Pay fuly attention to the double free problem
        ";

/// Rules for programs of sqlite3.
pub const SQLITE3_RULES: &'static str = "
        1. Always use sqlite3_open() or sqlite3_open_v2() to open a database; never directly assign sqlite3* pointers to integers or malloc() results.
        2. Always use sqlite3_prepare_v2() to prepare SQL statements before execution; do not reuse prepared statements (ppStmt) across different queries.
        3. Always call sqlite3_step() to execute a prepared statement; check the return value (SQLITE_ROW, SQLITE_DONE, or error codes).
        4. Always call sqlite3_finalize() to release prepared statements (sqlite3_stmt*) when done.
        5. Always call sqlite3_close() or sqlite3_close_v2() to close the database connection when finished.
        6. Do not modify sqlite3 opaque structures directly; always use official API functions (sqlite3_get_*, sqlite3_set_*, etc.).
        7. Use sqlite3_bind_*() functions (sqlite3_bind_int, sqlite3_bind_text, etc.) to safely bind parameters to prepared statements.
        8. Always check the return value of sqlite3_step() for error handling; do not assume success.
        9. Do not open the same database file multiple times without closing the previous connection first.
        10. Call sqlite3_reset() before re-executing a prepared statement with different parameters.
        ";

/// Rules for programs of cJSON.
pub const CJSON_RULES: &'static str = "
        1. Always use official cJSON creation APIs (cJSON_CreateObject(), cJSON_CreateArray(), cJSON_CreateString(), cJSON_CreateNumber(), etc.) to create objects; never directly assign cJSON* pointers to malloc() results.
        2. Do not directly modify cJSON structure members; use official API functions (cJSON_AddItemToObject(), cJSON_AddItemToArray(), cJSON_SetNumberValue(), etc.).
        3. Always call cJSON_Delete() to release cJSON objects when done; this recursively frees all child objects.
        4. Use cJSON_GetObjectItem() or cJSON_GetObjectItemCaseSensitive() to safely access object members.
        5. Always check if the returned pointer from cJSON_GetObjectItem() is NULL before accessing its properties.
        6. Use type-checking functions (cJSON_IsString(), cJSON_IsNumber(), cJSON_IsBool(), cJSON_IsArray(), cJSON_IsObject()) before accessing field values.
        7. For string values, use item->valuestring; do not assume it is non-NULL without type checking.
        8. For numeric values, use item->valuedouble or cJSON_GetNumberValue() depending on the data type.
        9. Use cJSON_Print() or cJSON_PrintUnformatted() to serialize to string, and free the returned string with free().
        10. Never assign the same cJSON object to multiple parents; use cJSON_Duplicate() to create a copy if needed.
        ";

/// The rules for programs of library `lib`, if it has any; `all` selects the
/// full set, which also covers libpng and libpcap.
pub open spec fn rules_of(lib: Seq<char>, all: bool) -> Option<Seq<char>> {
    if lib == "cre2"@ {
        Some(CRE2_RULES@)
    } else if lib == "zlib"@ {
        Some(ZLIB_RULES@)
    } else if lib == "lcms"@ {
        Some(LCMS_RULES@)
    } else if all && lib == "libpng"@ {
        Some(LIBPNG_RULES@)
    } else if all && lib == "libpcap"@ {
        Some(LIBPCAP_RULES@)
    } else if lib == "sqlite3"@ {
        Some(SQLITE3_RULES@)
    } else if lib == "cJSON"@ {
        Some(CJSON_RULES@)
    } else {
        None
    }
}

/// `template` with its `{project_rules}` slot filled for `lib`, or as it is
/// for a library without rules.
pub open spec fn with_rules(template: Seq<char>, lib: Seq<char>, all: bool) -> Seq<char> {
    match rules_of(lib, all) {
        Some(r) => replace_all(template, "{project_rules}"@, r),
        None => template,
    }
}

/// Whether two strings are equal.
fn same(a: &str, b: &str) -> (r: bool)
    ensures
        r == (a@ == b@),
{
    a.to_string() == b.to_string()
}

/// The rules for programs of library `lib`.
fn rules_for(lib: &str, all: bool) -> (r: Option<&'static str>)
    ensures
        r matches Some(s) ==> rules_of(lib@, all) == Some(s@),
        r is None ==> rules_of(lib@, all) is None,
{
    if same(lib, "cre2") {
        Some(CRE2_RULES)
    } else if same(lib, "zlib") {
        Some(ZLIB_RULES)
    } else if same(lib, "lcms") {
        Some(LCMS_RULES)
    } else if all && same(lib, "libpng") {
        Some(LIBPNG_RULES)
    } else if all && same(lib, "libpcap") {
        Some(LIBPCAP_RULES)
    } else if same(lib, "sqlite3") {
        Some(SQLITE3_RULES)
    } else if same(lib, "cJSON") {
        Some(CJSON_RULES)
    } else {
        None
    }
}

/// Fills the `{project_rules}` slot of `template` for `lib`.
fn fill_rules(template: &str, lib: &str, all: bool) -> (r: String)
    ensures
        r@ == with_rules(template@, lib@, all),
{
    proof {
        reveal_strlit("{project_rules}");
    }
    match rules_for(lib, all) {
        Some(rules) => replace_str(template, "{project_rules}", rules),
        None => template.to_string(),
    }
}

/// The user template for API-combination programs (the code phase of chain
/// of thought when `enable_cot`), with the rules of library `library_name`.
pub fn get_project_rules(library_name: &str, enable_cot: bool) -> (r: String)
    ensures
        enable_cot ==> r@ == with_rules(USER_API_COT_CODE_TEMPLATE@, library_name@, true),
        !enable_cot ==> r@ == with_rules(USER_API_TEMPLATE@, library_name@, true),
{
    let template = if enable_cot { USER_API_COT_CODE_TEMPLATE } else { USER_API_TEMPLATE };
    fill_rules(template, library_name, true)
}

/// The rules of library `library_name` alone.
pub fn get_raw_project_rules(library_name: &str) -> (r: String)
    ensures
        r@ == with_rules(RAW_RULE@, library_name@, false),
{
    fill_rules(RAW_RULE, library_name, false)
}

/// `template` with the project name filled in.
pub open spec fn for_project(template: Seq<char>, target: Seq<char>) -> Seq<char> {
    replace_all(template, "{project}"@, target)
}

/// Fills the `{project}` slot of `template`.
fn fill_project(template: &str, target: &str) -> (r: String)
    ensures
        r@ == for_project(template@, target@),
{
    proof {
        reveal_strlit("{project}");
    }
    replace_str(template, "{project}", target)
}

/// The plan template of chain of thought, for the configured library.
pub fn get_user_cot_plan_template(config: &RunConfig) -> (r: String)
    ensures
        r@ == for_project(USER_API_COT_PLAN_TEMPLATE@, config.target@),
{
    fill_project(USER_API_COT_PLAN_TEMPLATE, config.target.as_str())
}

/// The code template of chain of thought, for the configured library.
pub fn get_user_cot_code_template(config: &RunConfig) -> (r: String)
    ensures
        r@ == for_project(USER_API_COT_CODE_TEMPLATE@, config.target@),
{
    fill_project(USER_API_COT_CODE_TEMPLATE, config.target.as_str())
}

/// The user template of the configured generation mode, for the configured
/// library.
pub fn get_user_gen_template(config: &RunConfig) -> (r: String)
    ensures
        config.generation_mode == GenerationModeP::FuzzDriver ==> r@ == for_project(USER_GEN_TEMPLATE@, config.target@),
        config.generation_mode == GenerationModeP::ApiCombination ==> r@ == for_project(USER_API_TEMPLATE@, config.target@),
{
    let template = match config.generation_mode {
        GenerationModeP::FuzzDriver => USER_GEN_TEMPLATE,
        GenerationModeP::ApiCombination => USER_API_TEMPLATE,
    };
    fill_project(template, config.target.as_str())
}

/// The system template of the configured generation mode.
pub fn get_sys_gen_template(config: &RunConfig) -> (r: &'static str)
    ensures
        config.generation_mode == GenerationModeP::FuzzDriver ==> r@ == SYSTEM_GEN_TEMPLATE@,
        config.generation_mode == GenerationModeP::ApiCombination ==> r@ == SYSTEM_API_TEMPLATE@,
{
    match config.generation_mode {
        GenerationModeP::FuzzDriver => SYSTEM_GEN_TEMPLATE,
        GenerationModeP::ApiCombination => SYSTEM_API_TEMPLATE,
    }
}

/// The input opened from memory, and from a file where the library cannot
/// read memory streams.
pub open spec fn fmemopen_call() -> Seq<char> {
    "fmemopen((void *)data, size, \"rb\")"@
}

/// The user template of the configured mode for the configured library.
pub open spec fn user_template(config: &RunConfig) -> Seq<char> {
    if config.generation_mode == GenerationModeP::FuzzDriver {
        for_project(USER_GEN_TEMPLATE@, config.target@)
    } else {
        for_project(USER_API_TEMPLATE@, config.target@)
    }
}

/// The chat template: the user template, led by the landmark input where
/// there is one, followed by the library's initialisation code where there
/// is some, and reading its input from a file where the library disables
/// memory streams.
pub open spec fn chat_template(config: &RunConfig, lib: &LibConfig, landmark: &Option<String>) -> Seq<char> {
    let base = user_template(config);
    let led = match landmark {
        Some(l) => "The input data is: "@ + l@ + "\n\n\n."@ + base,
        None => base,
    };
    let full = match lib.spec {
        Some(init) => led + "\nThe begining of the fuzz driver is: \n"@ + init@,
        None => led,
    };
    if lib.disable_fmemopen == Some(true) {
        replace_all(full, fmemopen_call(), "fopen(\"input_file\", \"rb\")"@)
    } else {
        full
    }
}

/// The chat template for the configured library.
pub fn get_user_chat_template(config: &RunConfig, lib: &LibConfig, landmark: &Option<String>) -> (r: String)
    ensures
        r@ == chat_template(config, lib, landmark),
{
    let base = get_user_gen_template(config);
    let mut template = match landmark {
        Some(l) => {
            let mut s = String::new();
            s.append("The input data is: ");
            s.append(l.as_str());
            s.append("\n\n\n.");
            s.append(base.as_str());
            s
        },
        None => base,
    };
    match &lib.spec {
        Some(init) => {
            template.append("\nThe begining of the fuzz driver is: \n");
            template.append(init.as_str());
        },
        None => {},
    }
    let disable = match lib.disable_fmemopen {
        Some(d) => d,
        None => false,
    };
    if disable {
        proof {
            reveal_strlit("fmemopen((void *)data, size, \"rb\")");
        }
        replace_str(template.as_str(), "fmemopen((void *)data, size, \"rb\")", "fopen(\"input_file\", \"rb\")")
    } else {
        template
    }
}

} // verus!
