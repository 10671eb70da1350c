use lisa::config::{get_project_rules, get_raw_project_rules, get_user_chat_template, get_user_cot_plan_template, GenerationModeP, HandlerType, LibConfig, RunConfig, RAW_RULE, USER_API_TEMPLATE};
use lisa::request::http::{validate_openai_request, HttpClientConfig, OpenAIMessageBuilder, OpenAIUsage, RequestError, TokenUsage};
use lisa::request::openai::{strip_code_prefix, strip_code_wrapper};
use lisa::request::prompt::{combination_to_str, get_prompt_counter_value, set_prompt_counter_value, update_prompt_counter, FuncGadget, ProgramError, ProgramTask, Prompt, PromptCounter};

fn gadget(name: &str, sig: &str) -> FuncGadget {
    FuncGadget { name: name.to_string(), signature: sig.to_string() }
}

fn run_config(mode: GenerationModeP) -> RunConfig {
    RunConfig {
        generation_mode: mode,
        target: "zlib".to_string(),
        n_sample: 10,
        disable_power_schedule: false,
        fuzz_round_succ: 1,
        fuzz_converge_round: 10,
        cores: 1,
        max_cores: 0,
        exponent_branch: false,
        recheck: false,
        fuzzer_run: false,
        handler_type: HandlerType::Openai,
        seed_gen_timeout: None,
        quiet_round: 3,
        num_new_pairs: 3,
        enable_cot: false,
    }
}

fn lib_config() -> LibConfig {
    LibConfig {
        project_name: "zlib".to_string(),
        static_lib_name: "libz.a".to_string(),
        dyn_lib_name: "libz.so".to_string(),
        ban: None,
        null_term: None,
        extra_c_flags: None,
        landmark: None,
        force_types: None,
        fuzz_fork: None,
        desc: None,
        spec: None,
        init_file: None,
        asan_option: None,
        disable_fmemopen: Some(true),
        rss_limit_mb: None,
    }
}

#[test]
fn test_message_builder() {
    let system_msg = OpenAIMessageBuilder::system("You are a helpful assistant.");
    assert_eq!(system_msg.role, "system");
    assert_eq!(system_msg.content, "You are a helpful assistant.");

    let user_msg = OpenAIMessageBuilder::user("Hello");
    assert_eq!(user_msg.role, "user");
    assert_eq!(user_msg.content, "Hello");

    let assistant_msg = OpenAIMessageBuilder::assistant("Hi there!");
    assert_eq!(assistant_msg.role, "assistant");
    assert_eq!(assistant_msg.content, "Hi there!");

    let named_msg = OpenAIMessageBuilder::with_name(user_msg, "TestUser");
    assert_eq!(named_msg.name, Some("TestUser".to_string()));
}

#[test]
fn test_openai_request_validation() {
    let valid = vec![OpenAIMessageBuilder::user("Hello")];
    assert!(validate_openai_request("gpt-3.5-turbo", &valid).is_ok());
    assert!(validate_openai_request("", &valid).is_err());
}

#[test]
fn request_faults_are_named() {
    let msgs = vec![OpenAIMessageBuilder::user("Hello")];
    assert!(matches!(validate_openai_request("", &msgs), Err(RequestError::EmptyModel)));
    assert!(matches!(validate_openai_request("m", &Vec::new()), Err(RequestError::EmptyMessages)));
    let mut odd = OpenAIMessageBuilder::user("x");
    odd.role = "tool".to_string();
    assert!(matches!(validate_openai_request("m", &vec![odd]), Err(RequestError::InvalidRole(r)) if r == "tool"));
    assert!(matches!(validate_openai_request("m", &vec![OpenAIMessageBuilder::system("")]), Err(RequestError::EmptyContent)));
}

#[test]
fn token_usage_adds_up() {
    let mut total = TokenUsage::new(1, 2, 3);
    let usage = OpenAIUsage { prompt_tokens: 10, completion_tokens: 20, total_tokens: 30, cache_creation_input_tokens: 0, cache_read_input_tokens: 0 };
    total.add(&TokenUsage::from_openai_usage(&usage));
    assert_eq!((total.prompt_tokens, total.completion_tokens, total.total_tokens), (11, 22, 33));
    let mut other = lisa::request::openai::TokenUsage::new(5, 5, 10);
    other.add(&lisa::request::openai::TokenUsage::new(1, 1, 2));
    assert_eq!(other.total_tokens, 12);
}

#[test]
fn client_settings() {
    let mut c = HttpClientConfig::default_config();
    assert_eq!(c.base_url, "https://api.openai.com");
    assert_eq!(c.retry_attempts, 3);
    c.set_base_url("http://localhost:8000/v1");
    c.set_timeout(30);
    assert_eq!(c.base_url, "http://localhost:8000/v1");
    assert_eq!(c.timeout_secs, 30);
}

#[test]
fn answer_is_unwrapped() {
    let answer = "  Here is the code:\n```cpp\nint f() { return 66; }\n```\nDone.  ";
    assert_eq!(strip_code_wrapper(answer), "/*Here is the code:\n*/\n\nint f() { return 66; }\n");
    assert_eq!(strip_code_wrapper("```\nx\n```"), "/**/\nx\n");
    assert_eq!(strip_code_wrapper("int g();"), "/**/\nint g();");
    assert_eq!(strip_code_prefix("```c\nx", "c"), "\nx");
    assert_eq!(strip_code_prefix("x", "c"), "x");
}

#[test]
fn prompt_tasks_and_examples() {
    let mut p = Prompt::new(vec![gadget("f", "int f(void)")], true, GenerationModeP::ApiCombination);
    assert!(matches!(p.task, ProgramTask::CotPlan));
    let mut counter = PromptCounter::new();
    let q = Prompt::from_combination(vec![gadget("f", "int f(void)")], true, GenerationModeP::FuzzDriver, &mut counter);
    assert_eq!(get_prompt_counter_value(&counter, "f"), Some(1));
    assert!(matches!(q.task, ProgramTask::Generate));
    p.set_cot_code_task("plan".to_string());
    assert!(matches!(&p.task, ProgramTask::CotCode { execution_plan } if execution_plan == "plan"));
    p.set_generate_task();
    assert!(matches!(p.task, ProgramTask::Generate));
    p.add_successful_example("one".to_string());
    p.add_successful_example("two".to_string());
    p.add_successful_example("three".to_string());
    assert_eq!(p.successful_examples, vec!["two".to_string(), "three".to_string()]);
    p.set_combination(vec![gadget("a", "int a(int)"), gadget("b", "void b(void)"), gadget("a", "int a(int)")], &mut counter);
    assert_eq!(get_prompt_counter_value(&counter, "a"), Some(2));
    assert_eq!(get_prompt_counter_value(&counter, "f"), Some(1));
    assert_eq!(p.get_combination().len(), 3);
    assert_eq!(p.serialize(), "int a(int),\n    void b(void),\n    int a(int)");
}

#[test]
fn combination_text() {
    assert_eq!(combination_to_str(&vec![]), "");
    assert_eq!(combination_to_str(&vec![gadget("a", "int a(int)")]), "int a(int)");
}

#[test]
fn prompt_counter_counts() {
    let mut c = PromptCounter::new();
    assert_eq!(get_prompt_counter_value(&c, "f"), None);
    set_prompt_counter_value(&mut c, "f".to_string(), 4);
    update_prompt_counter(&mut c, &vec![gadget("f", "int f(void)"), gadget("g", "int g(void)")]);
    assert_eq!(get_prompt_counter_value(&c, "f"), Some(5));
    assert_eq!(get_prompt_counter_value(&c, "g"), Some(1));
    set_prompt_counter_value(&mut c, "h".to_string(), u32::MAX);
    update_prompt_counter(&mut c, &vec![gadget("h", "int h(void)"), gadget("f", "int f(void)"), gadget("f", "int f(void)")]);
    assert_eq!(get_prompt_counter_value(&c, "h"), Some(u32::MAX));
    assert_eq!(get_prompt_counter_value(&c, "f"), Some(7));
    assert_eq!(c.counts.len(), 3);
}

#[test]
fn project_rules_fill_the_template() {
    let zlib = get_project_rules("zlib", false);
    assert!(zlib.contains("Do not redefine z_stream_s"));
    assert!(!zlib.contains("{project_rules}"));
    assert_eq!(get_project_rules("unknown", false), USER_API_TEMPLATE);
    assert!(get_project_rules("libpng", true).contains("png_structp"));
    assert_eq!(get_raw_project_rules("libpng"), RAW_RULE);
    assert!(get_raw_project_rules("cJSON").contains("cJSON_Delete"));
}

#[test]
fn chat_templates_for_the_library() {
    let cfg = run_config(GenerationModeP::FuzzDriver);
    let t = get_user_chat_template(&cfg, &lib_config(), &Some("AB".to_string()));
    assert!(t.starts_with("The input data is: AB\n\n\n."));
    assert!(t.contains("fopen(\"input_file\", \"rb\")"));
    assert!(!t.contains("fmemopen((void *)data"));
    assert!(!t.contains("{project}"));
    assert!(t.contains("zlib library APIs"));
    let plan = get_user_cot_plan_template(&cfg);
    assert!(plan.contains("test_zlib_api_sequence"));
    assert!(lib_config().should_terminate_with_null() == false);
}

#[test]
fn user_messages_follow_the_task() {
    use_message_checks();
}

fn use_message_checks() {
    let cfg = run_config(GenerationModeP::ApiCombination);
    let lib = lib_config();
    let mut p = Prompt::new(vec![gadget("deflate", "int deflate(z_streamp, int)")], false, GenerationModeP::ApiCombination);
    let m = p.user_message(&cfg, &lib, &None);
    assert!(m.contains("int deflate(z_streamp, int)"));
    assert!(!m.contains("{combinations}"));
    assert!(!m.contains("Here are some successful examples:\n```cpp"));
    p.add_successful_example("int x = 1;".to_string());
    let m = p.user_message(&cfg, &lib, &None);
    assert!(m.contains("Here are some successful examples:\n```cpp\nint x = 1;\n```"));
    p.set_repair_task("int f();".to_string(), ProgramError::Link("undefined reference".to_string()));
    let m = p.user_message(&cfg, &lib, &None);
    assert!(m.contains("Error code:int f();"));
    assert!(m.contains("Error Type: Link Error"));
    assert!(m.contains("Error Details:undefined reference"));
    p.set_cot_code_task("step one".to_string());
    let m = p.user_message(&cfg, &lib, &None);
    assert!(m.contains("Execution Plan:\nstep one"));
    assert!(m.contains("Do not redefine z_stream_s"));
    let driver = run_config(GenerationModeP::FuzzDriver);
    let m = p.user_message(&driver, &lib, &None);
    assert!(m.contains("int deflate(z_streamp, int)"));
    assert!(m.contains("fopen(\"input_file\", \"rb\")"));
}

#[test]
fn default_settings() {
    let c = HttpClientConfig::default();
    assert_eq!(c.timeout_secs, 180);
    assert_eq!(c.connect_timeout_secs, 10);
    assert_eq!(c.default_headers.len(), 2);
    let s = lisa::schedule::Schedule::default();
    assert_eq!(s.exponent, 1);
}
