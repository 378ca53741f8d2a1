use mask::llamacpp::{
    chat_content, json_payload, mem_total_bytes, models, open_thinking, select_model, strip_think_tags, Generation,
    GenerationError, GenerationStep, MemInfoError,
};
use std::time::Duration;

#[test]
fn thinking_is_opened() {
    assert_eq!(open_thinking("<|im_start|>assistant\n<think>\n\n</think>\n\n"), "<|im_start|>assistant\n<think>\n");
    assert_eq!(open_thinking("a<think>\n</think>\n\nrest"), "a<think>\n");
    assert_eq!(open_thinking("<think></think> <think></think>"), "<think></think> <think>\n");
    assert_eq!(open_thinking("x<think>\n"), "x<think>\n");
    assert_eq!(open_thinking("x"), "x<think>\n");
    assert_eq!(open_thinking("<think>a</think>"), "<think>a</think><think>\n");
}

#[test]
fn think_tags_are_stripped() {
    assert_eq!(strip_think_tags("<think>\n hello </think>\n"), "hello");
    assert_eq!(strip_think_tags("plain"), "plain");
    assert_eq!(strip_think_tags("<think></think>"), "");
}

#[test]
fn json_payload_is_found() {
    assert_eq!(json_payload("<think>x</think> noise {\"a\":1} \n"), "{\"a\":1}");
    assert_eq!(json_payload("  plain "), "plain");
    assert_eq!(json_payload("a</think>b</think> {x}"), "{x}");
    assert_eq!(json_payload("{\"a\":{\"b\":2}}"), "{\"a\":{\"b\":2}}");
}

#[test]
fn unconstrained_chats_turn_thinking_off() {
    assert_eq!(chat_content("Hi", false), "Hi /no_think");
    assert_eq!(chat_content("Hi", true), "Hi");
}

#[test]
fn model_fits_a_fifth_of_memory() {
    let sixteen_gib: u64 = 16 * 1024 * 1024 * 1024;
    assert_eq!(select_model(sixteen_gib, 0), 1);
    assert_eq!(select_model(sixteen_gib, 20), 1);
    assert_eq!(select_model(sixteen_gib, 40), 2);
    assert_eq!(select_model(sixteen_gib, 100), 0);
    assert_eq!(select_model(0, 0), 0);
    assert_eq!(select_model(u64::MAX, 0), 3);
    let all = models();
    assert_eq!(all.len(), 4);
    assert_eq!(all[1].file, "Qwen_Qwen3.5-2B-Q4_K_M.gguf");
    assert_eq!(all[1].estimated_ram, 1_396_198_496 + 512 * 1024 * 1024);
}

#[test]
fn meminfo_is_read() {
    assert_eq!(mem_total_bytes("MemTotal:       16303360 kB\nMemFree: 1 kB\n"), Ok(16303360 * 1024));
    assert_eq!(mem_total_bytes("MemFree: 1 kB\nMemTotal: +5 kB\r\n"), Ok(5120));
    assert_eq!(mem_total_bytes("MemFree: 1 kB\n"), Err(MemInfoError::Missing));
    assert_eq!(mem_total_bytes(""), Err(MemInfoError::Missing));
    assert_eq!(mem_total_bytes("MemTotal:\n"), Err(MemInfoError::MissingValue));
    assert_eq!(mem_total_bytes("MemTotal: abc kB"), Err(MemInfoError::InvalidNumber));
    assert_eq!(mem_total_bytes("MemTotal: 18446744073709551615 kB"), Ok(u64::MAX));
    assert_eq!(mem_total_bytes("MemTotal: 18446744073709551616 kB"), Err(MemInfoError::InvalidNumber));
    assert_eq!(mem_total_bytes(" MemTotal: 5 kB"), Err(MemInfoError::Missing));
}

#[test]
fn generation_refuses_a_negative_budget() {
    assert_eq!(Generation::new(-1, 10, 2048, false).err(), Some(GenerationError::NegativeBudget));
    assert_eq!(Generation::new(-1, 10, 0, false).err(), Some(GenerationError::EmptyContext));
    assert_eq!(Generation::new(4, 10, 0, true).err(), Some(GenerationError::EmptyContext));
    let g = Generation::new(4, 10, 2048, true).expect("generation");
    assert_eq!(g.max_think_tokens, 4);
    assert!(g.in_thinking);
}

#[test]
fn generation_closes_thinking_at_its_budget() {
    let mut g = Generation::new(10, 2, 2048, true).expect("generation");
    assert_eq!(g.step(), GenerationStep::Sample { thinking: true, constrained: false });
    g.accept("a");
    g.accept("b");
    assert_eq!(g.step(), GenerationStep::CloseThinking { feed: true });
    g.push_closing_piece("</think>");
    g.push_closing_piece("\n");
    g.end_thinking();
    assert_eq!(g.step(), GenerationStep::Sample { thinking: false, constrained: true });
    g.accept("{\"x\":1}");
    g.stop();
    assert_eq!(g.step(), GenerationStep::Done);
    let r = g.response(7, Duration::ZERO, Duration::from_millis(5));
    assert_eq!(r.thinking, "ab");
    assert_eq!(r.content, "{\"x\":1}");
    assert_eq!(r.prompt_tokens, 7);
    assert_eq!(r.thinking_tokens, 4);
    assert_eq!(r.generated_tokens, 5);
    assert_eq!(r.duration, Duration::from_millis(5));
}

#[test]
fn generation_leaves_thinking_when_the_model_closes_it() {
    let mut g = Generation::new(10, 8, 2048, true).expect("generation");
    g.accept("plan</think>");
    assert!(!g.in_thinking);
    assert_eq!(g.step(), GenerationStep::Sample { thinking: false, constrained: true });
}

#[test]
fn unconstrained_generation_stops_at_its_budget() {
    let mut g = Generation::new(2, 10, 2048, false).expect("generation");
    assert_eq!(g.step(), GenerationStep::Sample { thinking: false, constrained: false });
    g.accept("Paris");
    g.accept(" is");
    assert_eq!(g.step(), GenerationStep::Done);
    let r = g.response(3, Duration::ZERO, Duration::ZERO);
    assert_eq!(r.content, "Paris is");
    assert_eq!(r.thinking, "");
}

#[test]
fn model_files_follow_the_table() {
    let all = models();
    let sixteen_gib: u64 = 16 * 1024 * 1024 * 1024;
    assert_eq!(all[select_model(sixteen_gib, 0)].file, "Qwen_Qwen3.5-2B-Q4_K_M.gguf");
    assert_eq!(all[select_model(sixteen_gib, 0)].repo, "bartowski/Qwen_Qwen3.5-2B-GGUF");
    assert_eq!(all[select_model(0, 0)].params_tenths, 8);
    assert_eq!(all[select_model(64 * 1024 * 1024 * 1024, 0)].params_tenths, 90);
    assert_eq!(all[select_model(sixteen_gib, 40)].params_tenths, 40);
    assert_eq!(all[select_model(64 * 1024 * 1024 * 1024, 200)].params_tenths, 8);
    assert_eq!(all[3].file, "Qwen_Qwen3.5-9B-Q4_K_M.gguf");
}

#[test]
fn opening_thinking_twice_changes_nothing() {
    for prompt in ["x", "x<think>\n", "<|im_start|>user\nhi<|im_end|>\n"] {
        let once = open_thinking(prompt);
        assert!(once.contains("<think>") && !once.contains("</think>"));
        assert_eq!(open_thinking(&once), once);
    }
}
