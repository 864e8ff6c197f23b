use lisp::env::{default_env, Env};
use lisp::types::{LispTerm, NativeFn};

#[test]
fn new_env_has_one_empty_frame() {
    let env = Env::new();
    assert_eq!(env.depth(), 1);
    assert_eq!(env.get("x"), None);
    assert_eq!(env.get("+"), None);
}

#[test]
fn set_then_get_gives_the_term() {
    let mut env = Env::new();
    env.set("x", &LispTerm::Number(5));
    assert_eq!(env.get("x"), Some(&LispTerm::Number(5)));
    assert_eq!(env.get("y"), None);
    env.set("x", &LispTerm::Nil);
    assert_eq!(env.get("x"), Some(&LispTerm::Nil));
}

#[test]
fn inner_frames_shadow_outer_ones() {
    let mut env = Env::new();
    env.set("x", &LispTerm::Number(1));
    env.set("y", &LispTerm::Number(10));
    env.push_frame();
    assert_eq!(env.depth(), 2);
    assert_eq!(env.get("x"), Some(&LispTerm::Number(1)));
    env.set("x", &LispTerm::Number(2));
    assert_eq!(env.get("x"), Some(&LispTerm::Number(2)));
    assert_eq!(env.get("y"), Some(&LispTerm::Number(10)));
    env.push_frame();
    env.set("z", &LispTerm::Number(3));
    assert_eq!(env.get("x"), Some(&LispTerm::Number(2)));
    env.pop_frame();
    assert_eq!(env.get("z"), None);
    env.pop_frame();
    assert_eq!(env.depth(), 1);
    assert_eq!(env.get("x"), Some(&LispTerm::Number(1)));
    assert_eq!(env.get("y"), Some(&LispTerm::Number(10)));
}

#[test]
fn pop_frame_without_frames_changes_nothing() {
    let mut env = Env::new();
    env.set("x", &LispTerm::Number(1));
    env.pop_frame();
    assert_eq!(env.depth(), 0);
    assert_eq!(env.get("x"), None);
    env.pop_frame();
    assert_eq!(env.depth(), 0);
    env.push_frame();
    assert_eq!(env.depth(), 1);
    env.set("x", &LispTerm::Number(2));
    assert_eq!(env.get("x"), Some(&LispTerm::Number(2)));
}

#[test]
fn default_env_binds_the_four_operations() {
    let env = default_env();
    assert_eq!(env.depth(), 1);
    assert_eq!(env.get("+"), Some(&LispTerm::Func(NativeFn::Add)));
    assert_eq!(env.get("-"), Some(&LispTerm::Func(NativeFn::Sub)));
    assert_eq!(env.get("*"), Some(&LispTerm::Func(NativeFn::Mul)));
    assert_eq!(env.get("/"), Some(&LispTerm::Func(NativeFn::Div)));
    assert_eq!(env.get("%"), None);
}
