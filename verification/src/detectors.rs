//! Manifest detectors: given a manifest's text, they extract dependencies and
//! recognize frameworks. `requirements.txt` and `go.mod` are read line by
//! line here; `package.json`, `Cargo.toml` and `pyproject.toml` are parsed
//! by `serde_json` and `toml` (see [`crate::manifest`]) and read from the
//! parsed documents.
use vstd::prelude::*;

use crate::entities::scan::{DependencyView, FrameworkView};
use crate::manifest::{
    json_get, json_of, json_str, parse_json, parse_toml, toml_get, toml_lookup, toml_of, toml_str,
    JsonValue, TomlValue,
};
use crate::entities::{Dependency, Detection, Ecosystem, Framework, FrameworkCategory};
use crate::order::views;
use crate::text::{
    drop_empty,
    ascii_lowercase, ascii_lowercase_chars, before_sub, before_sub_chars, chars_of, contains,
    contains_sub, eq_lit, has_prefix, lines, lines_of, non_empty, pieces_view, slice_to_vec,
    split, split_chars, starts_with_lit, string_of, trim, trim_chars, Separator,
};

verus! {

// --- Framework tables ---------------------------------------------------------

/// A recognized framework: display name and category.
pub type FrameworkEntry = (Seq<char>, FrameworkCategory);

/// The framework an npm package name denotes.
pub open spec fn npm_framework(name: Seq<char>) -> Option<FrameworkEntry> {
    if name == "react"@ {
        Some(("React"@, FrameworkCategory::Frontend))
    } else if name == "vue"@ {
        Some(("Vue"@, FrameworkCategory::Frontend))
    } else if name == "svelte"@ {
        Some(("Svelte"@, FrameworkCategory::Frontend))
    } else if name == "@angular/core"@ {
        Some(("Angular"@, FrameworkCategory::Frontend))
    } else if name == "solid-js"@ {
        Some(("SolidJS"@, FrameworkCategory::Frontend))
    } else if name == "next"@ {
        Some(("Next.js"@, FrameworkCategory::Fullstack))
    } else if name == "nuxt"@ {
        Some(("Nuxt"@, FrameworkCategory::Fullstack))
    } else if name == "express"@ {
        Some(("Express"@, FrameworkCategory::Backend))
    } else if name == "@nestjs/core"@ {
        Some(("NestJS"@, FrameworkCategory::Backend))
    } else if name == "fastify"@ {
        Some(("Fastify"@, FrameworkCategory::Backend))
    } else if name == "@tauri-apps/api"@ {
        Some(("Tauri"@, FrameworkCategory::Desktop))
    } else if name == "electron"@ {
        Some(("Electron"@, FrameworkCategory::Desktop))
    } else {
        None
    }
}

/// The framework a Cargo crate name denotes.
pub open spec fn cargo_framework(name: Seq<char>) -> Option<FrameworkEntry> {
    if name == "tauri"@ {
        Some(("Tauri"@, FrameworkCategory::Desktop))
    } else if name == "axum"@ {
        Some(("Axum"@, FrameworkCategory::Backend))
    } else if name == "actix-web"@ {
        Some(("Actix Web"@, FrameworkCategory::Backend))
    } else if name == "rocket"@ {
        Some(("Rocket"@, FrameworkCategory::Backend))
    } else if name == "warp"@ {
        Some(("Warp"@, FrameworkCategory::Backend))
    } else if name == "leptos"@ {
        Some(("Leptos"@, FrameworkCategory::Frontend))
    } else if name == "yew"@ {
        Some(("Yew"@, FrameworkCategory::Frontend))
    } else {
        None
    }
}

/// The framework a (lowercased) Python package name denotes.
pub open spec fn python_framework(name: Seq<char>) -> Option<FrameworkEntry> {
    if name == "django"@ {
        Some(("Django"@, FrameworkCategory::Backend))
    } else if name == "flask"@ {
        Some(("Flask"@, FrameworkCategory::Backend))
    } else if name == "fastapi"@ {
        Some(("FastAPI"@, FrameworkCategory::Backend))
    } else {
        None
    }
}

/// The framework a Go module path denotes.
pub open spec fn go_framework(path: Seq<char>) -> Option<FrameworkEntry> {
    if contains_sub(path, "gin-gonic/gin"@) {
        Some(("Gin"@, FrameworkCategory::Backend))
    } else if contains_sub(path, "labstack/echo"@) {
        Some(("Echo"@, FrameworkCategory::Backend))
    } else if contains_sub(path, "gofiber/fiber"@) {
        Some(("Fiber"@, FrameworkCategory::Backend))
    } else {
        None
    }
}

/// The result of a table lookup, as a static name and a category.
pub open spec fn entry_matches(r: Option<(&'static str, FrameworkCategory)>, e: Option<FrameworkEntry>) -> bool {
    match r {
        Some((n, c)) => e == Some((n@, c)),
        None => e is None,
    }
}

/// Recognizes a framework from an npm package name.
pub fn npm_framework_of(name: &str) -> (r: Option<(&'static str, FrameworkCategory)>)
    ensures
        entry_matches(r, npm_framework(name@)),
{
    let n = chars_of(name);
    if eq_lit(&n, "react") {
        Some(("React", FrameworkCategory::Frontend))
    } else if eq_lit(&n, "vue") {
        Some(("Vue", FrameworkCategory::Frontend))
    } else if eq_lit(&n, "svelte") {
        Some(("Svelte", FrameworkCategory::Frontend))
    } else if eq_lit(&n, "@angular/core") {
        Some(("Angular", FrameworkCategory::Frontend))
    } else if eq_lit(&n, "solid-js") {
        Some(("SolidJS", FrameworkCategory::Frontend))
    } else if eq_lit(&n, "next") {
        Some(("Next.js", FrameworkCategory::Fullstack))
    } else if eq_lit(&n, "nuxt") {
        Some(("Nuxt", FrameworkCategory::Fullstack))
    } else if eq_lit(&n, "express") {
        Some(("Express", FrameworkCategory::Backend))
    } else if eq_lit(&n, "@nestjs/core") {
        Some(("NestJS", FrameworkCategory::Backend))
    } else if eq_lit(&n, "fastify") {
        Some(("Fastify", FrameworkCategory::Backend))
    } else if eq_lit(&n, "@tauri-apps/api") {
        Some(("Tauri", FrameworkCategory::Desktop))
    } else if eq_lit(&n, "electron") {
        Some(("Electron", FrameworkCategory::Desktop))
    } else {
        None
    }
}

/// Recognizes a framework from a Cargo crate name.
pub fn cargo_framework_of(name: &str) -> (r: Option<(&'static str, FrameworkCategory)>)
    ensures
        entry_matches(r, cargo_framework(name@)),
{
    let n = chars_of(name);
    if eq_lit(&n, "tauri") {
        Some(("Tauri", FrameworkCategory::Desktop))
    } else if eq_lit(&n, "axum") {
        Some(("Axum", FrameworkCategory::Backend))
    } else if eq_lit(&n, "actix-web") {
        Some(("Actix Web", FrameworkCategory::Backend))
    } else if eq_lit(&n, "rocket") {
        Some(("Rocket", FrameworkCategory::Backend))
    } else if eq_lit(&n, "warp") {
        Some(("Warp", FrameworkCategory::Backend))
    } else if eq_lit(&n, "leptos") {
        Some(("Leptos", FrameworkCategory::Frontend))
    } else if eq_lit(&n, "yew") {
        Some(("Yew", FrameworkCategory::Frontend))
    } else {
        None
    }
}

/// Recognizes a framework from a (lowercased) Python package name.
pub fn python_framework_of(name: &str) -> (r: Option<(&'static str, FrameworkCategory)>)
    ensures
        entry_matches(r, python_framework(name@)),
{
    let n = chars_of(name);
    if eq_lit(&n, "django") {
        Some(("Django", FrameworkCategory::Backend))
    } else if eq_lit(&n, "flask") {
        Some(("Flask", FrameworkCategory::Backend))
    } else if eq_lit(&n, "fastapi") {
        Some(("FastAPI", FrameworkCategory::Backend))
    } else {
        None
    }
}

/// Recognizes a framework from a Go module path.
pub fn go_framework_of(path: &str) -> (r: Option<(&'static str, FrameworkCategory)>)
    ensures
        entry_matches(r, go_framework(path@)),
{
    let p = chars_of(path);
    let gin = chars_of("gin-gonic/gin");
    let echo = chars_of("labstack/echo");
    let fiber = chars_of("gofiber/fiber");
    if contains(&p, &gin) {
        Some(("Gin", FrameworkCategory::Backend))
    } else if contains(&p, &echo) {
        Some(("Echo", FrameworkCategory::Backend))
    } else if contains(&p, &fiber) {
        Some(("Fiber", FrameworkCategory::Backend))
    } else {
        None
    }
}

/// A framework entry attributed to `source`.
pub open spec fn framework_view(e: FrameworkEntry, source: Seq<char>) -> FrameworkView {
    FrameworkView { name: e.0, category: e.1, source }
}

/// Builds a framework entry attributed to `source`.
fn framework(entry: (&'static str, FrameworkCategory), source: &str) -> (r: Framework)
    ensures
        r@ == framework_view((entry.0@, entry.1), source@),
{
    Framework { name: entry.0.to_string(), category: entry.1, source: source.to_string() }
}

/// What a detector found: frameworks and dependencies, in order.
pub type Found = (Seq<FrameworkView>, Seq<DependencyView>);

/// The view of a detection.
pub open spec fn found_of(d: Detection) -> Found {
    (views(d.frameworks@), views(d.dependencies@))
}

// --- requirements.txt -----------------------------------------------------

/// Whether `c` ends a requirement's package name.
pub open spec fn is_name_end(c: char) -> bool {
    c == '=' || c == '<' || c == '>' || c == '!' || c == '~' || c == ' ' || c == '['
}

/// Position of the first name-ending character of `s`, or its length.
pub open spec fn name_split(s: Seq<char>) -> int {
    if exists|j: int| 0 <= j < s.len() && is_name_end(s[j]) {
        choose|j: int| 0 <= j < s.len() && is_name_end(s[j]) && forall|k: int| 0 <= k < j ==> !is_name_end(s[k])
    } else {
        s.len() as int
    }
}

/// A requirement line's package name (lowercased) and version, if it
/// declares one: the text before any `#`, trimmed, not starting with `-`,
/// split at the first of `=<>!~ [`.
pub open spec fn parse_requirement_spec(line: Seq<char>) -> Option<(Seq<char>, Option<Seq<char>>)> {
    let l = trim(before_sub(line, "#"@));
    if l.len() == 0 || l[0] == '-' {
        None
    } else {
        let k = name_split(l);
        let name = ascii_lowercase(trim(l.take(k)));
        let version = trim(l.skip(k));
        if name.len() == 0 {
            None
        } else {
            Some((name, if version.len() == 0 { None } else { Some(version) }))
        }
    }
}

/// Splits a PyPI requirement line into a name and optional version.
fn parse_requirement(line: &[char]) -> (r: Option<(String, Option<String>)>)
    ensures
        match r {
            Some((n, v)) => parse_requirement_spec(line@) == Some(
                (
                    n@,
                    match v {
                        Some(v) => Some(v@),
                        None => None,
                    },
                ),
            ),
            None => parse_requirement_spec(line@) is None,
        },
{
    let hash = chars_of("#");
    proof {
        reveal_strlit("#");
    }
    let head = before_sub_chars(line, &hash);
    let l = trim_chars(&head);
    if l.len() == 0 || l[0] == '-' {
        return None;
    }
    let mut k: usize = 0;
    while k < l.len() && !(l[k] == '=' || l[k] == '<' || l[k] == '>' || l[k] == '!' || l[k] == '~'
        || l[k] == ' ' || l[k] == '[')
        invariant
            k <= l@.len(),
            forall|j: int| 0 <= j < k ==> !is_name_end(l@[j]),
        decreases l@.len() - k,
    {
        k += 1;
    }
    assert(k == name_split(l@)) by {
        if k < l@.len() {
            assert(is_name_end(l@[k as int]));
            let j = choose|j: int|
                0 <= j < l@.len() && is_name_end(l@[j]) && forall|m: int|
                    0 <= m < j ==> !is_name_end(l@[m]);
            if j < k {
                assert(!is_name_end(l@[j]));
            }
            if j > k {
                assert(!is_name_end(l@[k as int]));
            }
        } else {
            assert(!(exists|j: int| 0 <= j < l@.len() && is_name_end(l@[j])));
        }
    }
    let name_part = slice_to_vec(&l, 0, k);
    assert(name_part@ == l@.take(k as int));
    let name_trim = trim_chars(&name_part);
    let name = ascii_lowercase_chars(&name_trim);
    if name.len() == 0 {
        return None;
    }
    let rest = slice_to_vec(&l, k, l.len());
    assert(rest@ == l@.skip(k as int));
    let version = trim_chars(&rest);
    let v = if version.len() == 0 {
        None
    } else {
        Some(string_of(&version))
    };
    Some((string_of(&name), v))
}

/// The detection of one Python package: its framework, if any, then the
/// dependency.
pub open spec fn python_found(acc: Found, name: Seq<char>, version: Option<Seq<char>>, source: Seq<char>) -> Found {
    let fws = match python_framework(name) {
        Some(e) => acc.0.push(framework_view(e, source)),
        None => acc.0,
    };
    (fws, acc.1.push(DependencyView { name, version, ecosystem: Ecosystem::PyPI }))
}

/// Records a Python dependency and any framework it implies.
fn push_python(detection: &mut Detection, name: String, version: Option<String>, source: &str)
    ensures
        found_of(*final(detection)) == python_found(
            found_of(*old(detection)),
            name@,
            match version {
                Some(v) => Some(v@),
                None => None,
            },
            source@,
        ),
{
    let ghost f0 = views(detection.frameworks@);
    let ghost d0 = views(detection.dependencies@);
    match python_framework_of(&name) {
        Some(entry) => {
            detection.frameworks.push(framework(entry, source));
            assert(views(detection.frameworks@) =~= f0.push(detection.frameworks@.last()@));
        },
        None => {},
    }
    let dep = Dependency { name, version, ecosystem: Ecosystem::PyPI };
    detection.dependencies.push(dep);
    assert(views(detection.dependencies@) =~= d0.push(detection.dependencies@.last()@));
}

/// The detections of requirement lines, added to `acc`.
pub open spec fn requirements_found(acc: Found, ls: Seq<Seq<char>>) -> Found
    decreases ls.len(),
{
    if ls.len() == 0 {
        acc
    } else {
        let prev = requirements_found(acc, ls.drop_last());
        match parse_requirement_spec(ls.last()) {
            Some((n, v)) => python_found(prev, n, v, "requirements.txt"@),
            None => prev,
        }
    }
}

/// Detects dependencies and frameworks from a `requirements.txt`.
pub fn detect_requirements(content: &str) -> (r: Detection)
    ensures
        found_of(r) == requirements_found((Seq::empty(), Seq::empty()), lines(content@)),
{
    let mut detection = Detection::default();
    let cs = chars_of(content);
    let ls = lines_of(&cs);
    let ghost lv = pieces_view(ls@);
    let mut i: usize = 0;
    assert(lv.take(0) =~= Seq::<Seq<char>>::empty());
    assert(found_of(detection) =~= requirements_found((Seq::empty(), Seq::empty()), lv.take(0)));
    while i < ls.len()
        invariant
            i <= ls@.len(),
            lv == pieces_view(ls@),
            lv == lines(content@),
            found_of(detection) == requirements_found((Seq::empty(), Seq::empty()), lv.take(i as int)),
        decreases ls@.len() - i,
    {
        assert(lv.take(i + 1).drop_last() == lv.take(i as int));
        assert(lv.take(i + 1).last() == ls@[i as int]@);
        match parse_requirement(&ls[i]) {
            Some((name, version)) => {
                push_python(&mut detection, name, version, "requirements.txt");
            },
            None => {},
        }
        i += 1;
    }
    assert(lv.take(ls@.len() as int) == lv);
    detection
}

// --- go.mod ---------------------------------------------------------------

/// The step of the `go.mod` reader on one line: whether a `require (` block
/// is open afterwards, and the module path and version the line declares.
pub open spec fn gomod_step(in_block: bool, raw: Seq<char>) -> (bool, Option<(Seq<char>, Option<Seq<char>>)>) {
    let line = trim(before_sub(raw, "//"@));
    if line.len() == 0 {
        (in_block, None)
    } else if has_prefix(line, "require ("@) {
        (true, None)
    } else if in_block && line == ")"@ {
        (false, None)
    } else if !in_block && !has_prefix(line, "require "@) {
        (in_block, None)
    } else {
        let spec_text = if in_block {
            line
        } else {
            trim(line.skip(8))
        };
        let parts = non_empty(split(spec_text, Separator::Whitespace));
        if parts.len() == 0 {
            (in_block, None)
        } else {
            (in_block, Some((parts[0], if parts.len() > 1 { Some(parts[1]) } else { None })))
        }
    }
}

/// The state after reading lines `ls` from state `in_block`, and what they
/// declared, added to `acc`.
pub open spec fn gomod_found(ls: Seq<Seq<char>>) -> (bool, Found)
    decreases ls.len(),
{
    if ls.len() == 0 {
        (false, (Seq::empty(), Seq::empty()))
    } else {
        let (in_block, acc) = gomod_found(ls.drop_last());
        let (next, decl) = gomod_step(in_block, ls.last());
        match decl {
            Some((path, version)) => {
                let fws = match go_framework(path) {
                    Some(e) => acc.0.push(framework_view(e, "go.mod"@)),
                    None => acc.0,
                };
                (next, (fws, acc.1.push(DependencyView { name: path, version, ecosystem: Ecosystem::Go })))
            },
            None => (next, acc),
        }
    }
}

/// Detects dependencies and frameworks from a `go.mod`.
pub fn detect_gomod(content: &str) -> (r: Detection)
    ensures
        found_of(r) == gomod_found(lines(content@)).1,
{
    let mut detection = Detection::default();
    let mut in_block = false;
    let cs = chars_of(content);
    let ls = lines_of(&cs);
    let ghost lv = pieces_view(ls@);
    let comment = chars_of("//");
    let mut i: usize = 0;
    assert(lv.take(0) =~= Seq::<Seq<char>>::empty());
    assert(found_of(detection) =~= gomod_found(lv.take(0)).1);
    while i < ls.len()
        invariant
            i <= ls@.len(),
            lv == pieces_view(ls@),
            lv == lines(content@),
            comment@ == "//"@,
            in_block == gomod_found(lv.take(i as int)).0,
            found_of(detection) == gomod_found(lv.take(i as int)).1,
        decreases ls@.len() - i,
    {
        assert(lv.take(i + 1).drop_last() == lv.take(i as int));
        assert(lv.take(i + 1).last() == ls@[i as int]@);
        proof {
            reveal_strlit("//");
        }
        let head = before_sub_chars(&ls[i], &comment);
        let line = trim_chars(&head);
        let ghost step = gomod_step(in_block, ls@[i as int]@);
        if line.len() == 0 {
            i += 1;
            continue;
        }
        if starts_with_lit(&line, "require (") {
            in_block = true;
            i += 1;
            continue;
        }
        if in_block && eq_lit(&line, ")") {
            in_block = false;
            i += 1;
            continue;
        }
        let require = starts_with_lit(&line, "require ");
        if !in_block && !require {
            i += 1;
            continue;
        }
        let spec_chars = if in_block {
            line
        } else {
            proof {
                reveal_strlit("require ");
            }
            let rest = slice_to_vec(&line, 8, line.len());
            trim_chars(&rest)
        };
        let parts = drop_empty(split_chars(&spec_chars, Separator::Whitespace));
        if parts.len() > 0 {
            let path = string_of(&parts[0]);
            let version = if parts.len() > 1 {
                Some(string_of(&parts[1]))
            } else {
                None
            };
            let ghost f0 = views(detection.frameworks@);
            let ghost d0 = views(detection.dependencies@);
            match go_framework_of(&path) {
                Some(entry) => {
                    detection.frameworks.push(framework(entry, "go.mod"));
                    assert(views(detection.frameworks@) =~= f0.push(detection.frameworks@.last()@));
                },
                None => {},
            }
            detection.dependencies.push(Dependency { name: path, version, ecosystem: Ecosystem::Go });
            assert(views(detection.dependencies@) =~= d0.push(detection.dependencies@.last()@));
        }
        i += 1;
    }
    assert(lv.take(ls@.len() as int) == lv);
    detection
}

// --- package.json ---------------------------------------------------------

/// The detections of the entries of a dependency object of a
/// `package.json`, added to `acc`.
pub open spec fn npm_entries_found(acc: Found, entries: Seq<(String, JsonValue)>) -> Found
    decreases entries.len(),
{
    if entries.len() == 0 {
        acc
    } else {
        let prev = npm_entries_found(acc, entries.drop_last());
        let name = entries.last().0@;
        let fws = match npm_framework(name) {
            Some(e) => prev.0.push(framework_view(e, "package.json"@)),
            None => prev.0,
        };
        (
            fws,
            prev.1.push(
                DependencyView {
                    name,
                    version: json_str(entries.last().1),
                    ecosystem: Ecosystem::Npm,
                },
            ),
        )
    }
}

/// The detections of one dependency section of a `package.json`.
pub open spec fn npm_section(acc: Found, v: JsonValue, section: Seq<char>) -> Found {
    match json_get(v, section) {
        Some(JsonValue::Object(m)) => npm_entries_found(acc, m@),
        _ => acc,
    }
}

/// What a parsed `package.json` declares: its `dependencies`, then its
/// `devDependencies`.
pub open spec fn npm_found(v: JsonValue) -> Found {
    npm_section(npm_section((Seq::empty(), Seq::empty()), v, "dependencies"@), v, "devDependencies"@)
}

/// Adds the detections of a dependency object of a `package.json`.
fn npm_entries(detection: &mut Detection, entries: &Vec<(String, JsonValue)>)
    ensures
        found_of(*final(detection)) == npm_entries_found(found_of(*old(detection)), entries@),
{
    let ghost start = found_of(*detection);
    let mut i: usize = 0;
    assert(entries@.take(0) =~= Seq::<(String, JsonValue)>::empty());
    while i < entries.len()
        invariant
            i <= entries@.len(),
            found_of(*detection) == npm_entries_found(start, entries@.take(i as int)),
        decreases entries@.len() - i,
    {
        assert(entries@.take(i + 1).drop_last() == entries@.take(i as int));
        assert(entries@.take(i + 1).last() == entries@[i as int]);
        let (name, value) = (&entries[i].0, &entries[i].1);
        let version = match value.as_str() {
            Some(v) => Some(v.to_string()),
            None => None,
        };
        let ghost d0 = views(detection.dependencies@);
        let ghost f0 = views(detection.frameworks@);
        detection.dependencies.push(
            Dependency { name: name.clone(), version, ecosystem: Ecosystem::Npm },
        );
        assert(views(detection.dependencies@) =~= d0.push(detection.dependencies@.last()@));
        match npm_framework_of(name) {
            Some(entry) => {
                detection.frameworks.push(framework(entry, "package.json"));
                assert(views(detection.frameworks@) =~= f0.push(detection.frameworks@.last()@));
            },
            None => {},
        }
        i += 1;
    }
    assert(entries@.take(entries@.len() as int) == entries@);
}

/// Detects dependencies and frameworks from a parsed `package.json`.
pub fn npm_detection(value: &JsonValue) -> (r: Detection)
    ensures
        found_of(r) == npm_found(*value),
{
    let mut detection = Detection::default();
    assert(found_of(detection) =~= (Seq::<FrameworkView>::empty(), Seq::<DependencyView>::empty()));
    match value.get("dependencies") {
        Some(JsonValue::Object(m)) => npm_entries(&mut detection, m),
        _ => {},
    }
    match value.get("devDependencies") {
        Some(JsonValue::Object(m)) => npm_entries(&mut detection, m),
        _ => {},
    }
    detection
}

/// Detects dependencies and frameworks from a `package.json`; malformed JSON
/// yields an empty detection.
pub fn detect_npm(content: &str) -> (r: Detection)
    ensures
        match json_of(content@) {
            Some(v) => found_of(r) == npm_found(v),
            None => found_of(r) == (Seq::<FrameworkView>::empty(), Seq::<DependencyView>::empty()),
        },
{
    match parse_json(content) {
        Some(value) => npm_detection(&value),
        None => {
            let d = Detection::default();
            assert(found_of(d) =~= (Seq::<FrameworkView>::empty(), Seq::<DependencyView>::empty()));
            d
        },
    }
}

// --- Cargo.toml -------------------------------------------------------------

/// The version a Cargo dependency declares: the string itself, or the
/// `version` string of its table.
pub open spec fn cargo_version(spec: TomlValue) -> Option<Seq<char>> {
    match spec {
        TomlValue::Str(s) => Some(s@),
        TomlValue::Table(t) => match toml_lookup(t@, "version"@) {
            Some(x) => toml_str(x),
            None => None,
        },
        _ => None,
    }
}

/// The detections of the entries of a `[dependencies]` table, added to
/// `acc`.
pub open spec fn cargo_entries_found(acc: Found, entries: Seq<(String, TomlValue)>) -> Found
    decreases entries.len(),
{
    if entries.len() == 0 {
        acc
    } else {
        let prev = cargo_entries_found(acc, entries.drop_last());
        let name = entries.last().0@;
        let fws = match cargo_framework(name) {
            Some(e) => prev.0.push(framework_view(e, "Cargo.toml"@)),
            None => prev.0,
        };
        (
            fws,
            prev.1.push(
                DependencyView {
                    name,
                    version: cargo_version(entries.last().1),
                    ecosystem: Ecosystem::Cargo,
                },
            ),
        )
    }
}

/// What a parsed `Cargo.toml` declares in its `[dependencies]` table.
pub open spec fn cargo_found(root: TomlValue) -> Found {
    match toml_get(root, "dependencies"@) {
        Some(TomlValue::Table(t)) => cargo_entries_found((Seq::empty(), Seq::empty()), t@),
        _ => (Seq::empty(), Seq::empty()),
    }
}

/// Detects dependencies and frameworks from a parsed `Cargo.toml`.
pub fn cargo_detection(root: &TomlValue) -> (r: Detection)
    ensures
        found_of(r) == cargo_found(*root),
{
    let mut detection = Detection::default();
    assert(found_of(detection) =~= (Seq::<FrameworkView>::empty(), Seq::<DependencyView>::empty()));
    let entries = match root.get("dependencies") {
        Some(TomlValue::Table(t)) => t,
        _ => {
            return detection;
        },
    };
    let mut i: usize = 0;
    assert(entries@.take(0) =~= Seq::<(String, TomlValue)>::empty());
    while i < entries.len()
        invariant
            i <= entries@.len(),
            found_of(detection) == cargo_entries_found(
                (Seq::empty(), Seq::empty()),
                entries@.take(i as int),
            ),
        decreases entries@.len() - i,
    {
        assert(entries@.take(i + 1).drop_last() == entries@.take(i as int));
        assert(entries@.take(i + 1).last() == entries@[i as int]);
        let (name, spec) = (&entries[i].0, &entries[i].1);
        let version = match spec {
            TomlValue::Str(v) => Some(v.clone()),
            TomlValue::Table(t) => match crate::manifest::toml_find(t, "version") {
                Some(x) => match x.as_str() {
                    Some(v) => Some(v.to_string()),
                    None => None,
                },
                None => None,
            },
            _ => None,
        };
        let ghost d0 = views(detection.dependencies@);
        let ghost f0 = views(detection.frameworks@);
        detection.dependencies.push(
            Dependency { name: name.clone(), version, ecosystem: Ecosystem::Cargo },
        );
        assert(views(detection.dependencies@) =~= d0.push(detection.dependencies@.last()@));
        match cargo_framework_of(name) {
            Some(entry) => {
                detection.frameworks.push(framework(entry, "Cargo.toml"));
                assert(views(detection.frameworks@) =~= f0.push(detection.frameworks@.last()@));
            },
            None => {},
        }
        i += 1;
    }
    assert(entries@.take(entries@.len() as int) == entries@);
    detection
}

/// Detects dependencies and frameworks from a `Cargo.toml`; a malformed
/// document yields an empty detection.
pub fn detect_cargo(content: &str) -> (r: Detection)
    ensures
        match toml_of(content@) {
            Some(v) => found_of(r) == cargo_found(v),
            None => found_of(r) == (Seq::<FrameworkView>::empty(), Seq::<DependencyView>::empty()),
        },
{
    match parse_toml(content) {
        Some(root) => cargo_detection(&root),
        None => {
            let d = Detection::default();
            assert(found_of(d) =~= (Seq::<FrameworkView>::empty(), Seq::<DependencyView>::empty()));
            d
        },
    }
}

// --- pyproject.toml ---------------------------------------------------------

/// The detections of the PEP 621 requirement strings `items`, added to
/// `acc`.
pub open spec fn pep621_found(acc: Found, items: Seq<TomlValue>) -> Found
    decreases items.len(),
{
    if items.len() == 0 {
        acc
    } else {
        let prev = pep621_found(acc, items.drop_last());
        match toml_str(items.last()) {
            Some(s) => match parse_requirement_spec(s) {
                Some((n, v)) => python_found(prev, n, v, "pyproject.toml"@),
                None => prev,
            },
            None => prev,
        }
    }
}

/// The detections of a Poetry dependency table's entries, added to `acc`;
/// the `python` entry is the interpreter and is skipped.
pub open spec fn poetry_found(acc: Found, entries: Seq<(String, TomlValue)>) -> Found
    decreases entries.len(),
{
    if entries.len() == 0 {
        acc
    } else {
        let prev = poetry_found(acc, entries.drop_last());
        let name = ascii_lowercase(entries.last().0@);
        if name == "python"@ {
            prev
        } else {
            python_found(prev, name, toml_str(entries.last().1), "pyproject.toml"@)
        }
    }
}

/// What a parsed `pyproject.toml` declares: the `[project]` dependencies
/// (PEP 621), then the `[tool.poetry.dependencies]` table.
pub open spec fn pyproject_found(root: TomlValue) -> Found {
    let empty: Found = (Seq::empty(), Seq::empty());
    let pep = match toml_get(root, "project"@) {
        Some(p) => match toml_get(p, "dependencies"@) {
            Some(TomlValue::Array(items)) => pep621_found(empty, items@),
            _ => empty,
        },
        None => empty,
    };
    match toml_get(root, "tool"@) {
        Some(t) => match toml_get(t, "poetry"@) {
            Some(p) => match toml_get(p, "dependencies"@) {
                Some(TomlValue::Table(d)) => poetry_found(pep, d@),
                _ => pep,
            },
            None => pep,
        },
        None => pep,
    }
}

/// Adds the detections of PEP 621 requirement strings.
fn pep621_items(detection: &mut Detection, items: &Vec<TomlValue>)
    ensures
        found_of(*final(detection)) == pep621_found(found_of(*old(detection)), items@),
{
    let ghost start = found_of(*detection);
    let mut i: usize = 0;
    assert(items@.take(0) =~= Seq::<TomlValue>::empty());
    while i < items.len()
        invariant
            i <= items@.len(),
            found_of(*detection) == pep621_found(start, items@.take(i as int)),
        decreases items@.len() - i,
    {
        assert(items@.take(i + 1).drop_last() == items@.take(i as int));
        assert(items@.take(i + 1).last() == items@[i as int]);
        match items[i].as_str() {
            Some(s) => {
                let cs = chars_of(s);
                match parse_requirement(&cs) {
                    Some((name, version)) => {
                        push_python(detection, name, version, "pyproject.toml");
                    },
                    None => {},
                }
            },
            None => {},
        }
        i += 1;
    }
    assert(items@.take(items@.len() as int) == items@);
}

/// Adds the detections of a Poetry dependency table.
fn poetry_entries(detection: &mut Detection, entries: &Vec<(String, TomlValue)>)
    ensures
        found_of(*final(detection)) == poetry_found(found_of(*old(detection)), entries@),
{
    let ghost start = found_of(*detection);
    let mut i: usize = 0;
    assert(entries@.take(0) =~= Seq::<(String, TomlValue)>::empty());
    while i < entries.len()
        invariant
            i <= entries@.len(),
            found_of(*detection) == poetry_found(start, entries@.take(i as int)),
        decreases entries@.len() - i,
    {
        assert(entries@.take(i + 1).drop_last() == entries@.take(i as int));
        assert(entries@.take(i + 1).last() == entries@[i as int]);
        let raw = chars_of(&entries[i].0);
        let lower = ascii_lowercase_chars(&raw);
        if !eq_lit(&lower, "python") {
            let version = match entries[i].1.as_str() {
                Some(v) => Some(v.to_string()),
                None => None,
            };
            push_python(detection, string_of(&lower), version, "pyproject.toml");
        }
        i += 1;
    }
    assert(entries@.take(entries@.len() as int) == entries@);
}

/// Detects dependencies and frameworks from a parsed `pyproject.toml`.
pub fn pyproject_detection(root: &TomlValue) -> (r: Detection)
    ensures
        found_of(r) == pyproject_found(*root),
{
    let mut detection = Detection::default();
    assert(found_of(detection) =~= (Seq::<FrameworkView>::empty(), Seq::<DependencyView>::empty()));
    match root.get("project") {
        Some(p) => match p.get("dependencies") {
            Some(TomlValue::Array(items)) => pep621_items(&mut detection, items),
            _ => {},
        },
        None => {},
    }
    match root.get("tool") {
        Some(t) => match t.get("poetry") {
            Some(p) => match p.get("dependencies") {
                Some(TomlValue::Table(d)) => poetry_entries(&mut detection, d),
                _ => {},
            },
            None => {},
        },
        None => {},
    }
    detection
}

/// Detects dependencies and frameworks from a `pyproject.toml`; a malformed
/// document yields an empty detection.
pub fn detect_pyproject(content: &str) -> (r: Detection)
    ensures
        match toml_of(content@) {
            Some(v) => found_of(r) == pyproject_found(v),
            None => found_of(r) == (Seq::<FrameworkView>::empty(), Seq::<DependencyView>::empty()),
        },
{
    match parse_toml(content) {
        Some(root) => pyproject_detection(&root),
        None => {
            let d = Detection::default();
            assert(found_of(d) =~= (Seq::<FrameworkView>::empty(), Seq::<DependencyView>::empty()));
            d
        },
    }
}

// --- Scanning ---------------------------------------------------------------

/// The manifest files recognized at a repository's root, in the order they
/// are read.
pub open spec fn manifest_names() -> Seq<Seq<char>> {
    seq!["package.json"@, "Cargo.toml"@, "requirements.txt"@, "pyproject.toml"@, "go.mod"@]
}

/// The manifest files recognized at a repository's root, in order.
pub fn manifest_files() -> (r: Vec<&'static str>)
    ensures
        r@.map_values(|s: &'static str| s@) == manifest_names(),
{
    let r = vec!["package.json", "Cargo.toml", "requirements.txt", "pyproject.toml", "go.mod"];
    assert(r@.map_values(|s: &'static str| s@) =~= manifest_names());
    r
}

/// What the detector of the manifest file `name` finds in `content`;
/// other files yield nothing.
pub open spec fn manifest_found(name: Seq<char>, content: Seq<char>) -> Found {
    let empty: Found = (Seq::empty(), Seq::empty());
    if name == "package.json"@ {
        match json_of(content) {
            Some(v) => npm_found(v),
            None => empty,
        }
    } else if name == "Cargo.toml"@ {
        match toml_of(content) {
            Some(v) => cargo_found(v),
            None => empty,
        }
    } else if name == "requirements.txt"@ {
        requirements_found(empty, lines(content))
    } else if name == "pyproject.toml"@ {
        match toml_of(content) {
            Some(v) => pyproject_found(v),
            None => empty,
        }
    } else if name == "go.mod"@ {
        gomod_found(lines(content)).1
    } else {
        empty
    }
}

/// Runs the detector of the manifest file `name` on its content; other
/// files yield nothing.
pub fn detect_manifest(name: &str, content: &str) -> (r: Detection)
    ensures
        found_of(r) == manifest_found(name@, content@),
{
    let n = chars_of(name);
    if eq_lit(&n, "package.json") {
        detect_npm(content)
    } else if eq_lit(&n, "Cargo.toml") {
        detect_cargo(content)
    } else if eq_lit(&n, "requirements.txt") {
        detect_requirements(content)
    } else if eq_lit(&n, "pyproject.toml") {
        detect_pyproject(content)
    } else if eq_lit(&n, "go.mod") {
        detect_gomod(content)
    } else {
        let d = Detection::default();
        assert(found_of(d) =~= (Seq::<FrameworkView>::empty(), Seq::<DependencyView>::empty()));
        d
    }
}

/// What the manifests `(name, content)` declare together, in order.
pub open spec fn manifests_found(ms: Seq<(Seq<char>, Seq<char>)>) -> Found
    decreases ms.len(),
{
    if ms.len() == 0 {
        (Seq::empty(), Seq::empty())
    } else {
        let a = manifests_found(ms.drop_last());
        let f = manifest_found(ms.last().0, ms.last().1);
        (a.0 + f.0, a.1 + f.1)
    }
}

/// Detects from the manifest files read at a repository's root, given as
/// `(file name, content)` in the order they were read, merging the results.
pub fn detect_manifests(manifests: &[(String, String)]) -> (r: Detection)
    ensures
        found_of(r) == manifests_found(manifests@.map_values(|p: (String, String)| (p.0@, p.1@))),
{
    let ghost ms = manifests@.map_values(|p: (String, String)| (p.0@, p.1@));
    let mut detection = Detection::default();
    let mut i: usize = 0;
    assert(ms.take(0) =~= Seq::<(Seq<char>, Seq<char>)>::empty());
    assert(found_of(detection) =~= manifests_found(ms.take(0)));
    while i < manifests.len()
        invariant
            i <= manifests@.len(),
            ms == manifests@.map_values(|p: (String, String)| (p.0@, p.1@)),
            found_of(detection) == manifests_found(ms.take(i as int)),
        decreases manifests@.len() - i,
    {
        assert(ms.take(i + 1).drop_last() == ms.take(i as int));
        assert(ms.take(i + 1).last() == (manifests@[i as int].0@, manifests@[i as int].1@));
        let found = detect_manifest(&manifests[i].0, &manifests[i].1);
        merge_detection(&mut detection, found);
        i += 1;
    }
    assert(ms.take(manifests@.len() as int) == ms);
    detection
}

/// Appends what `found` detected to `detection`.
pub fn merge_detection(detection: &mut Detection, found: Detection)
    ensures
        found_of(*final(detection)) == (
            found_of(*old(detection)).0 + found_of(found).0,
            found_of(*old(detection)).1 + found_of(found).1,
        ),
{
    let ghost f0 = views(detection.frameworks@);
    let ghost d0 = views(detection.dependencies@);
    let ghost ff = views(found.frameworks@);
    let ghost fd = views(found.dependencies@);
    let mut found = found;
    let mut frameworks = found.frameworks;
    let mut dependencies = found.dependencies;
    detection.frameworks.append(&mut frameworks);
    detection.dependencies.append(&mut dependencies);
    assert(views(detection.frameworks@) =~= f0 + ff);
    assert(views(detection.dependencies@) =~= d0 + fd);
}

/// A project scanner that reads the manifests of the working copy.
#[derive(Clone, Copy, Debug)]
pub struct FsProjectScanner;

impl FsProjectScanner {
    /// Creates a scanner.
    pub fn new() -> (r: FsProjectScanner) {
        FsProjectScanner
    }
}

// --- Laws -------------------------------------------------------------------------

/// Whether a detection lists no more frameworks than dependencies.
pub open spec fn balanced(f: Found) -> bool {
    f.0.len() <= f.1.len()
}

proof fn lemma_requirements_balanced(acc: Found, ls: Seq<Seq<char>>)
    requires
        balanced(acc),
    ensures
        balanced(requirements_found(acc, ls)),
    decreases ls.len(),
{
    if ls.len() > 0 {
        lemma_requirements_balanced(acc, ls.drop_last());
    }
}

proof fn lemma_gomod_balanced(ls: Seq<Seq<char>>)
    ensures
        balanced(gomod_found(ls).1),
    decreases ls.len(),
{
    if ls.len() > 0 {
        lemma_gomod_balanced(ls.drop_last());
    }
}

proof fn lemma_npm_entries_balanced(acc: Found, entries: Seq<(String, JsonValue)>)
    requires
        balanced(acc),
    ensures
        balanced(npm_entries_found(acc, entries)),
    decreases entries.len(),
{
    if entries.len() > 0 {
        lemma_npm_entries_balanced(acc, entries.drop_last());
    }
}

proof fn lemma_cargo_entries_balanced(acc: Found, entries: Seq<(String, TomlValue)>)
    requires
        balanced(acc),
    ensures
        balanced(cargo_entries_found(acc, entries)),
    decreases entries.len(),
{
    if entries.len() > 0 {
        lemma_cargo_entries_balanced(acc, entries.drop_last());
    }
}

proof fn lemma_pep621_balanced(acc: Found, items: Seq<TomlValue>)
    requires
        balanced(acc),
    ensures
        balanced(pep621_found(acc, items)),
    decreases items.len(),
{
    if items.len() > 0 {
        lemma_pep621_balanced(acc, items.drop_last());
    }
}

proof fn lemma_poetry_balanced(acc: Found, entries: Seq<(String, TomlValue)>)
    requires
        balanced(acc),
    ensures
        balanced(poetry_found(acc, entries)),
    decreases entries.len(),
{
    if entries.len() > 0 {
        lemma_poetry_balanced(acc, entries.drop_last());
    }
}

/// Every framework is recognized from a dependency declared with it, so no
/// detector reports more frameworks than dependencies.
pub proof fn law_frameworks_come_with_dependencies(ls: Seq<Seq<char>>, json: JsonValue, doc: TomlValue)
    ensures
        balanced(requirements_found((Seq::empty(), Seq::empty()), ls)),
        balanced(gomod_found(ls).1),
        balanced(npm_found(json)),
        balanced(cargo_found(doc)),
        balanced(pyproject_found(doc)),
{
    let empty: Found = (Seq::empty(), Seq::empty());
    lemma_requirements_balanced(empty, ls);
    lemma_gomod_balanced(ls);
    lemma_npm_entries_balanced(empty, match json_get(json, "dependencies"@) {
        Some(JsonValue::Object(m)) => m@,
        _ => Seq::empty(),
    });
    let first = npm_section(empty, json, "dependencies"@);
    lemma_npm_entries_balanced(first, match json_get(json, "devDependencies"@) {
        Some(JsonValue::Object(m)) => m@,
        _ => Seq::empty(),
    });
    match toml_get(doc, "dependencies"@) {
        Some(TomlValue::Table(t)) => lemma_cargo_entries_balanced(empty, t@),
        _ => {},
    }
    let pep = match toml_get(doc, "project"@) {
        Some(p) => match toml_get(p, "dependencies"@) {
            Some(TomlValue::Array(items)) => pep621_found(empty, items@),
            _ => empty,
        },
        None => empty,
    };
    match toml_get(doc, "project"@) {
        Some(p) => match toml_get(p, "dependencies"@) {
            Some(TomlValue::Array(items)) => lemma_pep621_balanced(empty, items@),
            _ => {},
        },
        None => {},
    }
    match toml_get(doc, "tool"@) {
        Some(t) => match toml_get(t, "poetry"@) {
            Some(p) => match toml_get(p, "dependencies"@) {
                Some(TomlValue::Table(d)) => lemma_poetry_balanced(pep, d@),
                _ => {},
            },
            None => {},
        },
        None => {},
    }
}

} // verus!
