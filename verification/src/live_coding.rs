//! The text work of live coding: turning a composition written inside the
//! library into a standalone program, the manifest of the session that builds
//! it, recognising the library's own manifest, and which file events mean the
//! composition changed.
use vstd::prelude::*;
use crate::text::{contains_text, occurs_in, replace_all, replace_text};

verus! {

/// The six import rewrites, in the order they are applied.
pub open spec fn imports_rewritten(source: Seq<char>) -> Seq<char> {
    let s1 = replace_all(source, "use crate::"@, "use tunes::"@);
    let s2 = replace_all(s1, "use crate::composition"@, "use tunes::composition"@);
    let s3 = replace_all(s2, "use crate::consts"@, "use tunes::consts"@);
    let s4 = replace_all(s3, "use crate::engine"@, "use tunes::engine"@);
    let s5 = replace_all(s4, "use crate::instruments"@, "use tunes::instruments"@);
    replace_all(s5, "use crate::prelude"@, "use tunes::prelude"@)
}

/// A composition written inside the library (importing from `crate::`) made
/// to build as a program that depends on the library (importing from
/// `tunes::`).
pub fn rewrite_crate_imports(source: &str) -> (r: String)
    ensures
        r@ == imports_rewritten(source@),
{
    proof {
        reveal_strlit("use crate::");
        reveal_strlit("use crate::composition");
        reveal_strlit("use crate::consts");
        reveal_strlit("use crate::engine");
        reveal_strlit("use crate::instruments");
        reveal_strlit("use crate::prelude");
    }
    let s1 = replace_text(source, "use crate::", "use tunes::");
    let s2 = replace_text(s1.as_str(), "use crate::composition", "use tunes::composition");
    let s3 = replace_text(s2.as_str(), "use crate::consts", "use tunes::consts");
    let s4 = replace_text(s3.as_str(), "use crate::engine", "use tunes::engine");
    let s5 = replace_text(s4.as_str(), "use crate::instruments", "use tunes::instruments");
    replace_text(s5.as_str(), "use crate::prelude", "use tunes::prelude")
}

/// The manifest text before the library's path.
pub open spec fn manifest_head() -> Seq<char> {
    "[package]\nname = \"tunes-live-session\"\nversion = \"0.1.0\"\nedition = \"2021\"\n\n[dependencies]\ntunes = { path = \""@
}

/// The manifest text after the library's path.
pub open spec fn manifest_tail() -> Seq<char> {
    "\" }\nanyhow = \"1.0\"\n\n[profile.live]\ninherits = \"release\"\nopt-level = 2\nlto = false\nincremental = true\ncodegen-units = 256\n"@
}

/// The manifest of a live session: a program depending on the library at
/// `library_root`, built with a fast-compiling release profile.
pub fn live_session_manifest(library_root: &str) -> (m: String)
    ensures
        m@ == manifest_head() + library_root@ + manifest_tail(),
{
    let mut m = String::from_str(
        "[package]\nname = \"tunes-live-session\"\nversion = \"0.1.0\"\nedition = \"2021\"\n\n[dependencies]\ntunes = { path = \"",
    );
    m.append(library_root);
    m.append(
        "\" }\nanyhow = \"1.0\"\n\n[profile.live]\ninherits = \"release\"\nopt-level = 2\nlto = false\nincremental = true\ncodegen-units = 256\n",
    );
    m
}

/// Whether a manifest is the library's own: it names the package `tunes`.
pub fn is_tunes_manifest(content: &str) -> (b: bool)
    ensures
        b == occurs_in(content@, "name = \"tunes\""@),
{
    contains_text(content, "name = \"tunes\"")
}

/// The kind of a file-system event on the watched composition.
#[derive(Debug, Clone, Copy, PartialEq, Eq, Structural)]
pub enum FileEventKind {
    Any,
    Access,
    Create,
    Modify,
    Remove,
    Other,
}

/// Whether an event means the composition has new content: it was created or
/// modified.
pub fn is_file_change(kind: FileEventKind) -> (b: bool)
    ensures
        b == (kind == FileEventKind::Create || kind == FileEventKind::Modify),
{
    match kind {
        FileEventKind::Create | FileEventKind::Modify => true,
        _ => false,
    }
}

/// A composition without `use crate::` needs no rewriting.
pub proof fn lemma_rewrite_without_crate_imports(source: Seq<char>)
    requires
        !occurs_in(source, "use crate::"@),
    ensures
        imports_rewritten(source) == source,
{
    reveal_strlit("use crate::");
    reveal_strlit("use crate::composition");
    reveal_strlit("use crate::consts");
    reveal_strlit("use crate::engine");
    reveal_strlit("use crate::instruments");
    reveal_strlit("use crate::prelude");
    crate::text::lemma_replace_absent(source, "use crate::"@, "use tunes::"@);
    assert("use crate::composition"@.take(11) =~= "use crate::"@);
    lemma_longer_absent(source, "use crate::"@, "use crate::composition"@);
    crate::text::lemma_replace_absent(source, "use crate::composition"@, "use tunes::composition"@);
    assert("use crate::consts"@.take(11) =~= "use crate::"@);
    lemma_longer_absent(source, "use crate::"@, "use crate::consts"@);
    crate::text::lemma_replace_absent(source, "use crate::consts"@, "use tunes::consts"@);
    assert("use crate::engine"@.take(11) =~= "use crate::"@);
    lemma_longer_absent(source, "use crate::"@, "use crate::engine"@);
    crate::text::lemma_replace_absent(source, "use crate::engine"@, "use tunes::engine"@);
    assert("use crate::instruments"@.take(11) =~= "use crate::"@);
    lemma_longer_absent(source, "use crate::"@, "use crate::instruments"@);
    crate::text::lemma_replace_absent(source, "use crate::instruments"@, "use tunes::instruments"@);
    assert("use crate::prelude"@.take(11) =~= "use crate::"@);
    lemma_longer_absent(source, "use crate::"@, "use crate::prelude"@);
    crate::text::lemma_replace_absent(source, "use crate::prelude"@, "use tunes::prelude"@);
}

/// Where a text does not occur, no text beginning with it does.
proof fn lemma_longer_absent(s: Seq<char>, short: Seq<char>, long: Seq<char>)
    requires
        !occurs_in(s, short),
        short.len() <= long.len(),
        long.take(short.len() as int) == short,
    ensures
        !occurs_in(s, long),
{
    assert forall|i: int| !crate::text::occurs_at(s, long, i) by {
        if crate::text::occurs_at(s, long, i) {
            assert(s.subrange(i, i + short.len()) =~= long.take(short.len() as int));
            assert(crate::text::occurs_at(s, short, i));
        }
    }
}

} // verus!
