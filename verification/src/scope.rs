//! The files that a structural search or rewrite covers, and their language.

use crate::apply::{comma_list, display_list};
use crate::errors::{refusal, refusal_next, ErrorKind, ErrorView, VcError, VcResult};
use crate::order::views;
use crate::paths::TreePath;
use crate::strings::{join, joined_with};
use crate::text::{dec, lossy_text, push_dec, same_text};
use crate::walk::{lang_of, lang_tag, MAX_SEARCH_FILE_BYTES};
use vstd::prelude::*;
use vstd::string::*;

verus! {

/// Whether a file in a language is among the files.
pub open spec fn speaks(files: Seq<Seq<u8>>, lang: Seq<char>) -> bool {
    exists|i: int| 0 <= i < files.len() && lang_of(#[trigger] files[i]) == lang
}

/// Whether a file in a language is among the files.
fn any_in(files: &Vec<TreePath>, lang: &str) -> (yes: bool)
    ensures
        yes == speaks(views(files@), lang@),
{
    let ghost fv = views(files@);
    let mut i: usize = 0;
    while i < files.len()
        invariant
            i <= files.len(),
            fv == views(files@),
            forall|k: int| 0 <= k < i ==> lang_of(#[trigger] fv[k]) != lang@,
        decreases files.len() - i,
    {
        assert(fv[i as int] == files@[i as int]@);
        if same_text(lang_tag(&files[i]), lang) {
            return true;
        }
        i = i + 1;
    }
    false
}

/// The supported languages of the files, in a fixed order.
pub open spec fn scope_langs(files: Seq<Seq<u8>>) -> Seq<Seq<char>> {
    let rust = if speaks(files, "rust"@) {
        seq!["rust"@]
    } else {
        seq![]
    };
    if speaks(files, "python"@) {
        rust.push("python"@)
    } else {
        rust
    }
}

/// The supported languages of the files, in a fixed order.
pub fn langs_in(files: &Vec<TreePath>) -> (langs: Vec<String>)
    ensures
        views(langs@) == scope_langs(views(files@)),
{
    let mut langs: Vec<String> = Vec::new();
    if any_in(files, "rust") {
        langs.push("rust".to_owned());
    }
    let ghost before = langs@;
    if any_in(files, "python") {
        langs.push("python".to_owned());
        assert(views(langs@) =~= views(before).push("python"@));
    }
    assert(views(langs@) =~= scope_langs(views(files@)));
    langs
}

/// Every language that a file of the scope is in is among those named, and every one named
/// is the language of some file.
pub proof fn law_every_language_in_scope_is_named(files: Seq<Seq<u8>>)
    ensures
        forall|i: int|
            0 <= i < files.len() && lang_of(#[trigger] files[i]).len() > 0 ==> scope_langs(
                files,
            ).contains(lang_of(files[i])),
        forall|k: int|
            0 <= k < scope_langs(files).len() ==> speaks(files, #[trigger] scope_langs(files)[k]),
{
    reveal_strlit("");
    let langs = scope_langs(files);
    assert forall|i: int|
        0 <= i < files.len() && lang_of(#[trigger] files[i]).len() > 0 implies langs.contains(
        lang_of(files[i]),
    ) by {
        let lang = lang_of(files[i]);
        assert(speaks(files, lang));
        if lang == "rust"@ {
            assert(langs[0] == "rust"@);
        } else {
            assert(lang == "python"@);
            assert(langs[langs.len() - 1] == "python"@);
        }
    }
}

/// A scope for a message: `.` when it is the whole tree.
pub open spec fn scope_text(scope: Seq<Seq<u8>>) -> Seq<char> {
    if scope.len() == 0 {
        "."@
    } else {
        comma_list(scope)
    }
}

/// A scope for a message: `.` when it is the whole tree.
pub fn describe_scope(scope: &Vec<TreePath>) -> (text: String)
    ensures
        text@ == scope_text(views(scope@)),
{
    if scope.len() == 0 {
        ".".to_owned()
    } else {
        display_list(scope)
    }
}

/// The language of a scope: the one asked for, or the only one there is.
pub open spec fn chosen_lang(
    files: Seq<Seq<u8>>,
    scope: Seq<Seq<u8>>,
    lang: Option<Seq<char>>,
) -> Result<Seq<char>, ErrorView> {
    let langs = scope_langs(files);
    match lang {
        Some(l) => Ok(l),
        None => if langs.len() == 0 {
            Err(
                refusal(
                    ErrorKind::Usage,
                    scope_text(scope) + ": scope has no supported language — nothing to match"@,
                ),
            )
        } else if langs.len() == 1 {
            Ok(langs[0])
        } else {
            Err(
                refusal(
                    ErrorKind::Usage,
                    "scope spans "@ + joined_with(langs, "+"@) + " — pass --lang"@,
                ),
            )
        },
    }
}

/// The files of a language.
pub open spec fn files_in(files: Seq<Seq<u8>>, lang: Seq<char>) -> Seq<Seq<u8>>
    decreases files.len(),
{
    if files.len() == 0 {
        seq![]
    } else {
        let before = files_in(files.drop_last(), lang);
        if lang_of(files.last()) == lang {
            before.push(files.last())
        } else {
            before
        }
    }
}

/// The files of a language, in their order.
pub fn keep_lang(files: &Vec<TreePath>, lang: &str) -> (kept: Vec<TreePath>)
    ensures
        views(kept@) == files_in(views(files@), lang@),
{
    let mut kept: Vec<TreePath> = Vec::new();
    let ghost fv = views(files@);
    let mut i: usize = 0;
    assert(fv.take(0) =~= Seq::<Seq<u8>>::empty());
    assert(views(kept@) =~= Seq::<Seq<u8>>::empty());
    while i < files.len()
        invariant
            i <= files.len(),
            fv == views(files@),
            views(kept@) == files_in(fv.take(i as int), lang@),
        decreases files.len() - i,
    {
        let ghost before = kept@;
        proof {
            assert(fv.take(i + 1).drop_last() =~= fv.take(i as int));
            assert(fv.take(i + 1).last() == files@[i as int]@);
        }
        if same_text(lang_tag(&files[i]), lang) {
            kept.push(files[i].copy());
            assert(views(kept@) =~= views(before).push(files@[i as int]@));
        }
        i = i + 1;
    }
    assert(fv.take(files.len() as int) =~= fv);
    kept
}

/// A language and the files of it.
#[derive(Debug, Clone)]
pub struct ScopeLang {
    pub lang: String,
    pub files: Vec<TreePath>,
}

/// The view of an optional text.
pub open spec fn opt_str(t: Option<&str>) -> Option<Seq<char>> {
    match t {
        Some(s) => Some(s@),
        None => None,
    }
}

/// The language of a scope and the files of it: the language asked for, or the only
/// supported one there is. Without one to choose, or with several, it is refused.
pub fn infer_scope_lang(walked: &Vec<TreePath>, scope: &Vec<TreePath>, lang: Option<&str>) -> (r:
    VcResult<ScopeLang>)
    ensures
        match (chosen_lang(views(walked@), views(scope@), opt_str(lang)), r) {
            (Ok(l), Ok(s)) => s.lang@ == l && views(s.files@) == files_in(views(walked@), l),
            (Err(e), Err(f)) => f@ == e,
            _ => false,
        },
{
    let chosen: String = match lang {
        Some(l) => l.to_owned(),
        None => {
            let langs = langs_in(walked);
            assert(views(langs@).len() == langs@.len());
            if langs.len() == 0 {
                let mut m: String = describe_scope(scope);
                m.append(": scope has no supported language — nothing to match");
                return Err(VcError::new(ErrorKind::Usage, m));
            }
            if langs.len() > 1 {
                let mut m: String = "scope spans ".to_owned();
                m.append(join(&langs, "+").as_str());
                m.append(" — pass --lang");
                return Err(VcError::new(ErrorKind::Usage, m));
            }
            assert(views(langs@)[0] == langs@[0]@);
            langs[0].as_str().to_owned()
        },
    };
    let files = keep_lang(walked, chosen.as_str());
    Ok(ScopeLang { lang: chosen, files })
}

/// A file and its size.
#[derive(Debug, Clone)]
pub struct SizedFile {
    pub path: TreePath,
    pub len: u64,
}

/// What a [`SizedFile`] says.
pub struct SizedView {
    pub path: Seq<u8>,
    pub len: u64,
}

impl View for SizedFile {
    type V = SizedView;

    open spec fn view(&self) -> SizedView {
        SizedView { path: self.path@, len: self.len }
    }
}

/// The refusal of a rewrite over a file that is too large to match.
pub open spec fn oversized(f: SizedView) -> ErrorView {
    refusal_next(
        ErrorKind::Usage,
        lossy_text(f.path) + ": "@ + dec(f.len as nat) + " bytes exceeds the "@ + dec(
            MAX_SEARCH_FILE_BYTES as nat,
        ) + "-byte size limit — a file in scope cannot be left out of a plan"@,
        "add it to .vcignore, or pass scope paths without it"@,
    )
}

/// The first file, from the `i`th on, that is too large to match.
pub open spec fn first_oversized(files: Seq<SizedView>, i: int) -> Option<SizedView>
    decreases files.len() - i,
{
    if i >= files.len() {
        None
    } else if files[i].len > MAX_SEARCH_FILE_BYTES {
        Some(files[i])
    } else {
        first_oversized(files, i + 1)
    }
}

/// With a file that is too large there is a first one, at or before it.
pub proof fn lemma_first_oversized(files: Seq<SizedView>, i: int, k: int)
    requires
        0 <= i <= k < files.len(),
        files[k].len > MAX_SEARCH_FILE_BYTES,
    ensures
        exists|j: int|
            i <= j <= k && (#[trigger] files[j]).len > MAX_SEARCH_FILE_BYTES && first_oversized(
                files,
                i,
            ) == Some(files[j]),
    decreases files.len() - i,
{
    if files[i].len <= MAX_SEARCH_FILE_BYTES {
        lemma_first_oversized(files, i + 1, k);
    }
}

/// Refuses a rewrite over a scope with a file that is too large to match: leaving the file
/// out would leave a hole in what the plan vouches for.
pub fn refuse_oversized(files: &Vec<SizedFile>) -> (r: VcResult<()>)
    ensures
        match (first_oversized(views(files@), 0), r) {
            (None, Ok(_)) => true,
            (Some(f), Err(e)) => e@ == oversized(f),
            _ => false,
        },
{
    let ghost fv = views(files@);
    let mut i: usize = 0;
    while i < files.len()
        invariant
            i <= files.len(),
            fv == views(files@),
            first_oversized(fv, 0) == first_oversized(fv, i as int),
        decreases files.len() - i,
    {
        let f = &files[i];
        assert(fv[i as int] == f@);
        if f.len > MAX_SEARCH_FILE_BYTES {
            let mut m: String = f.path.display();
            m.append(": ");
            push_dec(&mut m, f.len);
            m.append(" bytes exceeds the ");
            push_dec(&mut m, MAX_SEARCH_FILE_BYTES);
            m.append("-byte size limit — a file in scope cannot be left out of a plan");
            return Err(
                VcError::new(ErrorKind::Usage, m).with_next(
                    "add it to .vcignore, or pass scope paths without it".to_owned(),
                ),
            );
        }
        i = i + 1;
    }
    Ok(())
}

/// A language is chosen exactly when it is the only one: some file is in it, and every file
/// that is in any language is in that one.
pub proof fn law_a_language_is_chosen_exactly_when_it_is_the_only_one(
    files: Seq<Seq<u8>>,
    scope: Seq<Seq<u8>>,
    lang: Seq<char>,
)
    ensures
        chosen_lang(files, scope, None) == Ok::<Seq<char>, ErrorView>(lang) <==> {
            &&& lang.len() > 0
            &&& exists|i: int| 0 <= i < files.len() && lang_of(#[trigger] files[i]) == lang
            &&& forall|i: int|
                0 <= i < files.len() && lang_of(#[trigger] files[i]).len() > 0 ==> lang_of(
                    files[i],
                ) == lang
        },
        chosen_lang(files, scope, Some(lang)) == Ok::<Seq<char>, ErrorView>(lang),
{
    reveal_strlit("");
    reveal_strlit("rust");
    reveal_strlit("python");
    let langs = scope_langs(files);
    law_every_language_in_scope_is_named(files);
    let chosen = chosen_lang(files, scope, None);
    if chosen == Ok::<Seq<char>, ErrorView>(lang) {
        assert(langs.len() == 1 && langs[0] == lang);
        assert(speaks(files, langs[0]));
        assert(lang == "rust"@ || lang == "python"@);
        assert forall|i: int| 0 <= i < files.len() && lang_of(#[trigger] files[i]).len() > 0 implies
            lang_of(files[i]) == lang by {
            assert(langs.contains(lang_of(files[i])));
        }
    }
    if lang.len() > 0 && speaks(files, lang) && (forall|i: int|
        0 <= i < files.len() && lang_of(#[trigger] files[i]).len() > 0 ==> lang_of(files[i])
            == lang) {
        let i = choose|i: int| 0 <= i < files.len() && lang_of(#[trigger] files[i]) == lang;
        assert(langs.contains(lang_of(files[i])));
        assert(lang == "rust"@ || lang == "python"@);
        assert("rust"@.len() != "python"@.len());
        if langs.len() > 1 {
            assert(speaks(files, langs[0]) && speaks(files, langs[1]));
            let k = choose|k: int| 0 <= k < files.len() && lang_of(#[trigger] files[k]) == langs[0];
            let m = choose|m: int| 0 <= m < files.len() && lang_of(#[trigger] files[m]) == langs[1];
            assert(lang_of(files[k]) == lang);
            assert(lang_of(files[m]) == lang);
        }
    }
}

/// The files of a language are exactly those in it, all of them, in their order.
pub proof fn law_every_file_of_a_language_is_kept(files: Seq<Seq<u8>>, lang: Seq<char>)
    ensures
        files_in(files, lang) == files.filter(|f: Seq<u8>| lang_of(f) == lang),
    decreases files.len(),
{
    reveal(Seq::filter);
    if files.len() > 0 {
        law_every_file_of_a_language_is_kept(files.drop_last(), lang);
    } else {
        assert(files_in(files, lang) =~= files.filter(|f: Seq<u8>| lang_of(f) == lang));
    }
}

/// A rewrite is refused for the first file that is too large, and goes on exactly when every
/// file can be matched.
pub proof fn law_the_first_file_too_large_is_refused(files: Seq<SizedView>)
    ensures
        match first_oversized(files, 0) {
            None => forall|i: int|
                0 <= i < files.len() ==> (#[trigger] files[i]).len <= MAX_SEARCH_FILE_BYTES,
            Some(f) => exists|k: int|
                {
                    &&& 0 <= k < files.len() && #[trigger] files[k] == f && f.len
                        > MAX_SEARCH_FILE_BYTES
                    &&& forall|i: int|
                        0 <= i < k ==> (#[trigger] files[i]).len <= MAX_SEARCH_FILE_BYTES
                },
        },
{
    lemma_first_too_large(files, 0);
}

proof fn lemma_first_too_large(files: Seq<SizedView>, from: int)
    requires
        0 <= from <= files.len(),
        forall|i: int| 0 <= i < from ==> (#[trigger] files[i]).len <= MAX_SEARCH_FILE_BYTES,
    ensures
        match first_oversized(files, from) {
            None => forall|i: int|
                0 <= i < files.len() ==> (#[trigger] files[i]).len <= MAX_SEARCH_FILE_BYTES,
            Some(f) => exists|k: int|
                {
                    &&& 0 <= k < files.len() && #[trigger] files[k] == f && f.len
                        > MAX_SEARCH_FILE_BYTES
                    &&& forall|i: int|
                        0 <= i < k ==> (#[trigger] files[i]).len <= MAX_SEARCH_FILE_BYTES
                },
        },
    decreases files.len() - from,
{
    if from < files.len() && files[from].len <= MAX_SEARCH_FILE_BYTES {
        lemma_first_too_large(files, from + 1);
    }
}

} // verus!
