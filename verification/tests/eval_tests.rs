use boa_engine::{Context, JsNativeError, JsResult, JsValue, NativeFunction, Source};
use script_bridge::bridge;
use script_bridge::eval::{eval_outcome, EvalResult};

fn dispatch_ok(uri: &str, method: &str, payload: Vec<u8>) -> Result<Vec<u8>, String> {
    let expected = bridge::json_to_msgpack("{\"x\":1}").unwrap();
    if uri == "svc" && method == "m" && payload == expected {
        Ok(bridge::json_to_msgpack("{\"x\":1,\"y\":2}").unwrap())
    } else {
        Err("unexpected call".to_string())
    }
}

fn dispatch_err(_uri: &str, _method: &str, _payload: Vec<u8>) -> Result<Vec<u8>, String> {
    Err("unreachable".to_string())
}

fn bridge_native(
    args: &[JsValue],
    ctx: &mut Context<'_>,
    dispatch: fn(&str, &str, Vec<u8>) -> Result<Vec<u8>, String>,
) -> JsResult<JsValue> {
    let uri = args
        .get(0)
        .and_then(JsValue::as_string)
        .ok_or_else(|| JsNativeError::typ().with_message("identifier must be a string"))?
        .to_std_string()
        .unwrap();
    let method = args
        .get(1)
        .and_then(JsValue::as_string)
        .ok_or_else(|| JsNativeError::typ().with_message("method must be a string"))?
        .to_std_string()
        .unwrap();
    let argument = args
        .get(2)
        .ok_or_else(|| JsNativeError::typ().with_message("argument is missing"))?
        .to_json(ctx)
        .map_err(|e| JsNativeError::typ().with_message(e.to_string()))?
        .to_string();
    let payload =
        bridge::json_to_msgpack(&argument).map_err(|e| JsNativeError::typ().with_message(e))?;
    let doc = bridge::bridge_response(dispatch(&uri, &method, payload))
        .map_err(|e| JsNativeError::typ().with_message(e))?;
    let json: serde_json::Value = serde_json::from_str(&doc).unwrap();
    JsValue::from_json(&json, ctx)
}

fn sub_ok(_this: &JsValue, args: &[JsValue], ctx: &mut Context<'_>) -> JsResult<JsValue> {
    bridge_native(args, ctx, dispatch_ok)
}

fn sub_err(_this: &JsValue, args: &[JsValue], ctx: &mut Context<'_>) -> JsResult<JsValue> {
    bridge_native(args, ctx, dispatch_err)
}

fn run_with(
    src: &str,
    native: Option<boa_engine::native_function::NativeFunctionPointer>,
) -> EvalResult {
    let mut ctx = Context::default();
    if let Some(f) = native {
        ctx.register_global_callable("subinvoke", 0, NativeFunction::from_fn_ptr(f))
            .unwrap();
    }
    let outcome = match ctx.eval(Source::from_bytes(src.as_bytes())) {
        Ok(val) => match val.to_json(&mut ctx) {
            Ok(j) => Ok(j.to_string()),
            Err(e) => Err(e.to_string()),
        },
        Err(e) => Err(e.to_string()),
    };
    eval_outcome(outcome)
}

fn run(src: &str) -> EvalResult {
    run_with(src, None)
}

#[test]
fn evaluating_null_yields_null() {
    let r = run("null");
    assert_eq!(r.value.as_deref(), Some("null"));
    assert!(r.error.is_none());
}

#[test]
fn evaluating_bool_yields_bool() {
    let r = run("const is_true = true; is_true");
    assert_eq!(r.value.as_deref(), Some("true"));
    assert!(r.error.is_none());
}

#[test]
fn evaluating_string_yields_string() {
    let r = run("'hello' + ' ' + 'world'");
    assert_eq!(r.value.as_deref(), Some("\"hello world\""));
    assert!(r.error.is_none());
}

#[test]
fn evaluating_integer_yields_integer() {
    let r = run("const num = 5; num");
    assert_eq!(r.value.as_deref(), Some("5"));
    assert!(r.error.is_none());
}

#[test]
fn evaluating_rational_yields_rational() {
    let r = run("const num = 123.5; num");
    assert_eq!(r.value.as_deref(), Some("123.5"));
    assert!(r.error.is_none());
}

#[test]
fn evaluating_object_yields_object() {
    let r = run("const obj = { prop1: 1, prop2: 'hello' }; obj");
    assert_eq!(r.value.as_deref(), Some("{\"prop1\":1,\"prop2\":\"hello\"}"));
    assert!(r.error.is_none());
}

#[test]
fn undefined_identifier_reports_reference_error() {
    let r = run("undefined_variable");
    assert!(r.value.is_none());
    let e = r.error.unwrap();
    assert!(e.contains("ReferenceError"), "error was: {}", e);
}

#[test]
fn script_call_receives_decoded_response() {
    let src = "function f(a){ return subinvoke('svc', 'm', a); }; f({x:1})";
    let r = run_with(src, Some(sub_ok));
    assert_eq!(r.value.as_deref(), Some("{\"x\":1,\"y\":2}"));
    assert!(r.error.is_none());
}

#[test]
fn script_call_receives_failure_message_as_string() {
    let src = "function f(a){ return subinvoke('svc', 'm', a); }; f({x:1})";
    let r = run_with(src, Some(sub_err));
    assert_eq!(r.value.as_deref(), Some("\"unreachable\""));
    assert!(r.error.is_none());
}
