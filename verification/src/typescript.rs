//! TypeScript modules as JavaScript. Types are erased, not checked.
use oxc::allocator::Allocator;
use oxc::codegen::Codegen;
use oxc::parser::Parser;
use oxc::semantic::SemanticBuilder;
use oxc::span::SourceType;
use oxc::transformer::{TransformOptions, Transformer};
use vstd::prelude::*;
use vstd::string::StringExecFns;

verus! {

/// A module that cannot be transpiled, and what is wrong with it.
#[derive(Debug)]
pub struct Error {
    pub filename: String,
    pub diagnostics: String,
}

impl Error {
    /// The error in one line: where it is, and what it is.
    pub fn message(&self) -> (r: String)
        ensures
            r@ == self.filename@ + ": "@ + self.diagnostics@,
    {
        let mut text = self.filename.clone();
        text.append(": ");
        text.append(self.diagnostics.as_str());
        text
    }
}

/// The texts of some strings.
pub open spec fn texts(strings: Seq<String>) -> Seq<Seq<char>> {
    strings.map_values(|s: String| s@)
}

/// Lines, one after another.
pub open spec fn lines(diagnostics: Seq<Seq<char>>) -> Seq<char>
    decreases diagnostics.len(),
{
    if diagnostics.len() == 0 {
        Seq::empty()
    } else if diagnostics.len() == 1 {
        diagnostics[0]
    } else {
        lines(diagnostics.drop_last()) + "\n"@ + diagnostics.last()
    }
}

/// What the parser of `oxc` finds wrong with a TypeScript source.
pub uninterp spec fn parser_diagnostics(source: Seq<char>) -> Seq<Seq<char>>;

/// What the semantic analysis of `oxc` finds wrong with a TypeScript source.
pub uninterp spec fn semantic_diagnostics(source: Seq<char>) -> Seq<Seq<char>>;

/// What the transformer of `oxc` finds wrong with a TypeScript source, and the
/// JavaScript that comes of it.
pub uninterp spec fn transformed(filename: Seq<char>, source: Seq<char>) -> (
    Seq<Seq<char>>,
    Seq<char>,
);

/// `oxc::parser::Parser::parse` on a TypeScript source: its diagnostics, each as
/// its debug text.
#[verifier::external_body]
fn parse(source: &str) -> (r: Vec<String>)
    ensures
        texts(r@) == parser_diagnostics(source@),
{
    let allocator = Allocator::default();
    let parsed = Parser::new(&allocator, source, SourceType::ts()).parse();
    parsed.diagnostics.into_iter().map(|error| format!("{error:?}")).collect()
}

/// `oxc::semantic::SemanticBuilder::build` on a source that parses, with syntax
/// checks and evaluated enums: its diagnostics, each as its debug text.
#[verifier::external_body]
fn analyse(source: &str) -> (r: Vec<String>)
    requires
        parser_diagnostics(source@).len() == 0,
    ensures
        texts(r@) == semantic_diagnostics(source@),
{
    let allocator = Allocator::default();
    let program = Parser::new(&allocator, source, SourceType::ts()).parse().program;
    let builder = SemanticBuilder::new().with_check_syntax_error(true).with_enum_eval(true);
    let semantic = builder.build(&program);
    semantic.diagnostics.into_iter().map(|error| format!("{error:?}")).collect()
}

/// `oxc::transformer::Transformer::build_with_scoping` and `Codegen::build` on a
/// source without diagnostics so far: the diagnostics of the transformer, each as
/// its debug text, and the code.
#[verifier::external_body]
fn transform(filename: &str, source: &str) -> (r: (Vec<String>, String))
    requires
        parser_diagnostics(source@).len() == 0,
        semantic_diagnostics(source@).len() == 0,
    ensures
        (texts(r.0@), r.1@) == transformed(filename@, source@),
{
    let (allocator, path) = (Allocator::default(), std::path::Path::new(filename));
    let mut program = Parser::new(&allocator, source, SourceType::ts()).parse().program;
    let builder = SemanticBuilder::new().with_check_syntax_error(true).with_enum_eval(true);
    let scoping = builder.build(&program).semantic.into_scoping();
    let options = TransformOptions::default();
    let result = Transformer::new(&allocator, path, &options).build_with_scoping(scoping, &mut program);
    let diagnostics = result.diagnostics.into_iter().map(|error| format!("{error:?}")).collect();
    (diagnostics, Codegen::new().build(&program).code)
}

/// The error that some diagnostics make, if there are any: one line for each.
pub fn report(filename: &str, diagnostics: &Vec<String>) -> (r: Option<Error>)
    ensures
        r is Some == (diagnostics@.len() > 0),
        r matches Some(error) ==> error.filename@ == filename@ && error.diagnostics@ == lines(
            texts(diagnostics@),
        ),
{
    if diagnostics.len() == 0 {
        return None;
    }
    let ghost all = texts(diagnostics@);
    let mut text = diagnostics[0].clone();
    let mut i: usize = 1;
    proof {
        assert(all.take(1).len() == 1);
        assert(lines(all.take(1)) == all[0]);
    }
    while i < diagnostics.len()
        invariant
            1 <= i <= diagnostics@.len(),
            all == texts(diagnostics@),
            text@ == lines(all.take(i as int)),
        decreases diagnostics@.len() - i,
    {
        proof {
            assert(all.take(i as int + 1).drop_last() =~= all.take(i as int));
            assert(all.take(i as int + 1).last() == diagnostics@[i as int]@);
        }
        text.append("\n");
        text.append(diagnostics[i].as_str());
        i = i + 1;
    }
    assert(all.take(i as int) =~= all);
    Some(Error { filename: filename.to_owned(), diagnostics: text })
}

/// The first diagnostics that a source has on its way through the compiler, if it
/// has any.
pub open spec fn first_diagnostics(filename: Seq<char>, source: Seq<char>) -> Seq<Seq<char>> {
    if parser_diagnostics(source).len() > 0 {
        parser_diagnostics(source)
    } else if semantic_diagnostics(source).len() > 0 {
        semantic_diagnostics(source)
    } else {
        transformed(filename, source).0
    }
}

/// Transpiles one TypeScript ES module. Its import specifiers stay. Nothing is
/// generated from a module with diagnostics.
pub fn transpile(filename: &str, source: &str) -> (r: Result<String, Error>)
    ensures
        r is Ok == (first_diagnostics(filename@, source@).len() == 0),
        r matches Ok(code) ==> code@ == transformed(filename@, source@).1,
        r matches Err(error) ==> error.filename@ == filename@ && error.diagnostics@ == lines(
            first_diagnostics(filename@, source@),
        ),
{
    let parsed = parse(source);
    if let Some(error) = report(filename, &parsed) {
        return Err(error);
    }
    let analysed = analyse(source);
    if let Some(error) = report(filename, &analysed) {
        return Err(error);
    }
    let (diagnostics, code) = transform(filename, source);
    if let Some(error) = report(filename, &diagnostics) {
        return Err(error);
    }
    Ok(code)
}

/// Diagnostics are reported one to a line, in their order: another one adds a line break
/// and its text.
pub proof fn law_diagnostics_stand_one_to_a_line(diagnostics: Seq<Seq<char>>, last: Seq<char>)
    ensures
        lines(seq![last]) == last,
        diagnostics.len() > 0 ==> lines(diagnostics.push(last)) == lines(diagnostics) + seq!['\n']
            + last,
{
    reveal_strlit("\n");
    assert("\n"@ =~= seq!['\n']);
    assert(diagnostics.push(last).drop_last() =~= diagnostics);
}

/// A module is refused for what the first pass of the compiler that objects has to say,
/// and for that alone; it passes only where no pass objects.
pub proof fn law_the_first_objection_is_reported(filename: Seq<char>, source: Seq<char>)
    ensures
        ({
            let found = first_diagnostics(filename, source);
            &&& parser_diagnostics(source).len() > 0 ==> found == parser_diagnostics(source)
            &&& parser_diagnostics(source).len() == 0 && semantic_diagnostics(source).len() > 0
                ==> found == semantic_diagnostics(source)
            &&& found.len() == 0 <==> parser_diagnostics(source).len() == 0 && semantic_diagnostics(
                source,
            ).len() == 0 && transformed(filename, source).0.len() == 0
        }),
{
}

} // verus!
