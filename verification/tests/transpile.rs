//! TypeScript modules through the compiler and into an engine.
use kotoconn::typescript::{report, transpile};
use rquickjs::loader::{BuiltinLoader, BuiltinResolver};
use rquickjs::{CatchResultExt, Context, Module, Runtime};

#[test]
fn rejects_parser_and_semantic_errors() {
    for source in ["const x: =", "const x = 1; const x = 2;"] {
        let error = transpile("broken.ts", source).unwrap_err();
        assert_eq!(error.filename, "broken.ts");
        assert!(!error.diagnostics.is_empty());
    }
}

#[test]
fn async_methods_await_order_rejections_and_finally_survive_transpilation() {
    let source = transpile(
        "async.ts",
        r#"
        enum Stage { Ready = 42 }
        const events: string[] = [];
        class Service {
            constructor(readonly value: number) {}
            async run<T>(input: T): Promise<T> {
                events.push('start');
                try {
                    if (await Promise.resolve(this.value) !== Stage.Ready) throw Error('constructor');
                    events.push('resume');
                    await Promise.reject(new Error('expected'));
                } catch (error: unknown) {
                    if (!(error instanceof Error) || error.message !== 'expected') throw error;
                    events.push('catch');
                    return input;
                } finally {
                    events.push('finally');
                }
            }
        }
        const pending = new Service(Stage.Ready).run<string>('result');
        events.push('caller');
        if (await pending !== 'result') throw Error('wrong return value');
        if (events.join(',') !== 'start,caller,resume,catch,finally') throw Error(events.join(','));
    "#,
    )
    .unwrap();
    let runtime = Runtime::new().unwrap();
    let context = Context::full(&runtime).unwrap();
    context.with(|ctx| {
        Module::evaluate(ctx.clone(), "async.js", source)
            .unwrap()
            .finish::<()>()
            .catch(&ctx)
            .unwrap();
    });
}

#[test]
fn erases_type_only_imports_and_preserves_runtime_module_specifiers() {
    let source = transpile("main.ts", r#"
        import type { Missing } from './types-only.ts';
        import { value, type AlsoMissing } from './value.ts';
        type Shape = Missing & AlsoMissing;
        const result = value as Shape;
        if (result !== 42 || (await import('./value.ts')).value !== 42) throw Error('module import');
    "#).unwrap();
    let runtime = Runtime::new().unwrap();
    runtime.set_loader(
        BuiltinResolver::default().with_module("value.ts"),
        BuiltinLoader::default().with_module("value.ts", "export const value = 42;"),
    );
    let context = Context::full(&runtime).unwrap();
    context.with(|ctx| {
        Module::evaluate(ctx.clone(), "main.ts", source)
            .unwrap()
            .finish::<()>()
            .catch(&ctx)
            .unwrap();
    });
}

#[test]
fn types_are_erased() {
    let code = transpile("plain.ts", "export const x: number = 1;").unwrap();
    assert_eq!(code, "export const x = 1;\n");
}

#[test]
fn diagnostics_are_joined_line_by_line() {
    assert!(report("a.ts", &Vec::new()).is_none());
    let error = report("a.ts", &vec!["one".to_string(), "two".to_string()]).unwrap();
    assert_eq!(error.diagnostics, "one\ntwo");
    assert_eq!(error.message(), "a.ts: one\ntwo");
    let single = transpile("b.ts", "const x = 1; const x = 2;").unwrap_err();
    assert!(single.message().starts_with("b.ts: "));
}
