use vstd::prelude::*;
use crate::builtins::BUILTIN_NAMES;
use crate::lexer::KEYWORDS;
use crate::strings::builtin_str_starts_with;
use crate::strings::builtin_str_length;
use crate::text::str_eq;

verus! {

/// The opening of the summary, up to the list of keywords.
pub const INTRO: &'static str = "# Audion Language Spec (auto-generated)\n\n<!-- regenerate: audion spec > docs/AGENTS.md -->\n\n## Overview\n\nAudion is a general purpose language for audiovisual art, performance and installation\nIt targets SuperCollider via OSC. File extension: `.au`\n\n## Types\n\nnumber (f64), string (double-quoted), bool, nil, function (first-class, closures), array (ordered key-value), object (`return this;`), namespace (`include`)\n\nFalsy: `nil`, `false`, `0`, `\"\"`, `[]`, empty object. Everything else truthy.\n\n## Keywords\n\n";

/// Operators, syntax, objects and define blocks, up to the builtins.
pub const LANGUAGE: &'static str = "\n\n## Operators (by precedence, low→high)\n\n1. `= += -= *= /=`\n2. `||`\n3. `&&`\n4. `|`\n5. `^`\n6. `&`\n7. `== !=`\n8. `< > <= >=`\n9. `<< >>`\n10. `+ -`\n11. `* / %`\n12. `- ! ~` (unary)\n13. calls, `[]`, `.`\n\n## Syntax\n\n```\nlet x = 5;                          // variable\nx = 10;                             // assign (creates if not found)\nlet a = [1, 2, \"k\" => 3];           // array (PHP-style ordered kv)\nfn add(a, b) { return a + b; }      // function decl\nlet f = fn(x) { return x * 2; };    // anonymous fn / closure\nsynth(\"name\", freq: 440, amp: 0.5); // named args\nif (c) { } else { }                 // control flow\nwhile (c) { }                       // while loop\nloop { break; }                     // infinite loop\nfor (let i=0; i<10; i+=1) { }       // C-style for\nthread drums { loop { wait(1); } }  // named thread\ninclude \"lib.au\";                    // include file\ninclude \"lib.au\" as utils;           // aliased include\nusing lib;                           // import namespace\n// line comment  /* block comment */\n```\n\n## Objects\n\n```\nfn make_obj() {\n    let val = 0;\n    let get = fn() { return val; };\n    return this;    // captures scope as object\n}\nlet o = make_obj();\no.val = 42;         // field access via dot\no.get();            // method call\n```\n\n## SynthDef (define blocks)\n\n```\ndefine bass(freq, amp, gate, out) {\n    out(out, lpf(saw(freq), freq * 4) * env(gate) * amp);\n}\nsynth(\"bass\", freq: 110, amp: 0.5);\n// look in the examples folder for more\n```\n\n## Builtins\n\n";

pub const UGENS_HEAD: &'static str = "## UGens (inside define blocks)\n\n";

pub const PARAMS_HEAD: &'static str = "\n\n## Default SynthDef Params\n\n";

/// How programs are run, closing the summary.
pub const EXECUTION: &'static str = "\n\n## Execution\n\n- `audion run file.au` — runs file, auto-calls `main()` if defined, waits for threads\n- `audion run file.au --watch` — reloads on save, caches SynthDefs\n- `audion` — REPL mode (no auto main)\n- Ctrl+C frees all synth nodes cleanly\n";

/// Builtin categories by name prefix, in display order; a builtin goes to the category with
/// the longest prefix it starts with, and to `core` when there is none.
pub const CATEGORIES: [(&'static str, &'static str); 18] = [
    ("sequence", "array_seq_"),
    ("melody", "array_mel_"),
    ("array", "array_"),
    ("buffer", "buffer_"),
    ("console", "console_"),
    ("database", "sqlite_"),
    ("dir", "dir_"),
    ("file", "file_"),
    ("json", "json_"),
    ("link", "link_"),
    ("math", "math_"),
    ("midi", "midi_"),
    ("net", "net_"),
    ("osc", "osc_"),
    ("os", "os_"),
    ("string", "str"),
    ("date", "date"),
    ("date", "timestamp"),
];

pub open spec fn names_view(s: Seq<&str>) -> Seq<Seq<char>> {
    s.map_values(|n: &str| n@)
}

pub open spec fn categories_view(s: Seq<(&str, &str)>) -> Seq<(Seq<char>, Seq<char>)> {
    s.map_values(|c: (&str, &str)| (c.0@, c.1@))
}

/// The names, each in backticks, separated by single spaces.
pub open spec fn backtick_join(names: Seq<Seq<char>>) -> Seq<char>
    decreases names.len(),
{
    if names.len() == 0 {
        Seq::empty()
    } else if names.len() == 1 {
        seq!['`'] + names[0] + seq!['`']
    } else {
        backtick_join(names.drop_last()) + seq![' ', '`'] + names.last() + seq!['`']
    }
}

/// Among the first `k` categories, the one whose prefix `n` starts with is longest; the last
/// of several equally long ones.
pub open spec fn best_upto(n: Seq<char>, cats: Seq<(Seq<char>, Seq<char>)>, k: nat) -> Option<int>
    decreases k,
{
    if k == 0 {
        None
    } else {
        let b = best_upto(n, cats, (k - 1) as nat);
        let i = k - 1;
        if cats[i].1.is_prefix_of(n) && (match b { None => true, Some(j) => cats[j].1.len() <= cats[i].1.len() }) {
            Some(i)
        } else {
            b
        }
    }
}

/// The category label of a builtin name, if any prefix matches.
pub open spec fn category_of(n: Seq<char>, cats: Seq<(Seq<char>, Seq<char>)>) -> Option<Seq<char>> {
    match best_upto(n, cats, cats.len()) {
        Some(i) => Some(cats[i].0),
        None => None,
    }
}

/// The category labels of the first `k` categories, each once, in order of first appearance.
pub open spec fn labels_upto(cats: Seq<(Seq<char>, Seq<char>)>, k: nat) -> Seq<Seq<char>>
    decreases k,
{
    if k == 0 {
        Seq::empty()
    } else {
        let l = labels_upto(cats, (k - 1) as nat);
        if l.contains(cats[k - 1].0) { l } else { l.push(cats[k - 1].0) }
    }
}

/// The names whose category is `label` (no category when `label` is `None`), in order.
pub open spec fn names_in(names: Seq<Seq<char>>, cats: Seq<(Seq<char>, Seq<char>)>, label: Option<Seq<char>>)
    -> Seq<Seq<char>>
    decreases names.len(),
{
    if names.len() == 0 {
        Seq::empty()
    } else {
        let rest = names_in(names.drop_last(), cats, label);
        if category_of(names.last(), cats) == label { rest.push(names.last()) } else { rest }
    }
}

/// A category's line, `**label**: ` and its names, or nothing for a category without names.
pub open spec fn section(label: Seq<char>, names: Seq<Seq<char>>) -> Seq<char> {
    if names.len() == 0 {
        Seq::empty()
    } else {
        seq!['*', '*'] + label + seq!['*', '*', ':', ' '] + backtick_join(names) + seq!['\n', '\n']
    }
}

pub open spec fn sections(labels: Seq<Seq<char>>, names: Seq<Seq<char>>, cats: Seq<(Seq<char>, Seq<char>)>) -> Seq<char>
    decreases labels.len(),
{
    if labels.len() == 0 {
        Seq::empty()
    } else {
        sections(labels.drop_last(), names, cats) + section(labels.last(), names_in(names, cats, Some(labels.last())))
    }
}

/// The builtins part of the summary: the uncategorised names as `core`, then each category.
pub open spec fn builtins_text(names: Seq<Seq<char>>, cats: Seq<(Seq<char>, Seq<char>)>) -> Seq<char> {
    section("core"@, names_in(names, cats, None)) + sections(labels_upto(cats, cats.len()), names, cats)
}

/// Default parameters as `` `name`=value ``, separated by spaces.
pub open spec fn params_text(params: Seq<(Seq<char>, Seq<char>)>) -> Seq<char>
    decreases params.len(),
{
    if params.len() == 0 {
        Seq::empty()
    } else {
        let one = seq!['`'] + params.last().0 + seq!['`', '='] + params.last().1;
        if params.len() == 1 { one } else { params_text(params.drop_last()) + seq![' '] + one }
    }
}

/// The whole language summary.
pub open spec fn summary_text(keywords: Seq<Seq<char>>, builtins: Seq<Seq<char>>, cats: Seq<(Seq<char>, Seq<char>)>,
    ugens: Seq<Seq<char>>, params: Seq<(Seq<char>, Seq<char>)>) -> Seq<char> {
    INTRO@ + backtick_join(keywords) + LANGUAGE@ + builtins_text(builtins, cats) + UGENS_HEAD@ + backtick_join(ugens)
        + PARAMS_HEAD@ + params_text(params) + EXECUTION@
}

fn push_backtick_join(out: &mut String, names: &[&str])
    ensures final(out)@ == old(out)@ + backtick_join(names_view(names@)),
{
    let ghost o0 = out@;
    let mut i: usize = 0;
    while i < names.len()
        invariant
            i <= names@.len(),
            out@ == o0 + backtick_join(names_view(names@.take(i as int))),
        decreases names.len() - i,
    {
        let ghost before = out@;
        if i > 0 {
            out.push(' ');
        }
        out.push('`');
        out.append(names[i]);
        out.push('`');
        proof {
            let t = names_view(names@.take(i + 1));
            assert(t.drop_last() =~= names_view(names@.take(i as int)));
            assert(t.last() == names@[i as int]@);
            if i == 0 {
                assert(names_view(names@.take(0)) =~= Seq::<Seq<char>>::empty());
            }
            assert(out@ =~= o0 + backtick_join(t));
        }
        i += 1;
    }
    assert(names@.take(names@.len() as int) =~= names@);
}

/// The index of the category of builtin `n`, if any.
fn category_index(n: &str) -> (r: Option<usize>)
    ensures
        match r {
            Some(i) => best_upto(n@, categories_view(CATEGORIES@), 18) == Some(i as int) && i < 18,
            None => best_upto(n@, categories_view(CATEGORIES@), 18) is None,
        },
{
    let ghost cats = categories_view(CATEGORIES@);
    let cs = CATEGORIES;
    let mut best: Option<usize> = None;
    let mut best_len: usize = 0;
    let mut k: usize = 0;
    while k < 18
        invariant
            cs@ == CATEGORIES@,
            cats == categories_view(CATEGORIES@),
            cats.len() == 18,
            k <= 18,
            match best {
                Some(i) => best_upto(n@, cats, k as nat) == Some(i as int) && i < k && best_len == cats[i as int].1.len(),
                None => best_upto(n@, cats, k as nat) is None,
            },
        decreases 18 - k,
    {
        let (_, pfx) = cs[k];
        assert(cats[k as int].1 == pfx@);
        if builtin_str_starts_with(pfx, n) {
            let l = builtin_str_length(pfx);
            let better = match best { None => true, Some(_) => best_len <= l };
            if better {
                best = Some(k);
                best_len = l;
            }
        }
        k += 1;
    }
    best
}

fn label_is(n: &str, label: Option<&str>) -> (r: bool)
    ensures r == (category_of(n@, categories_view(CATEGORIES@)) == match label { Some(l) => Some(l@), None => None }),
{
    let ghost cats = categories_view(CATEGORIES@);
    let cs = CATEGORIES;
    match category_index(n) {
        Some(i) => {
            assert(cats[i as int].0 == cs@[i as int].0@);
            match label {
                Some(l) => str_eq(cs[i].0, l),
                None => false,
            }
        },
        None => label.is_none(),
    }
}

fn push_section(out: &mut String, label: &str, key: Option<&str>)
    ensures
        final(out)@ == old(out)@ + section(label@, names_in(names_view(BUILTIN_NAMES@), categories_view(CATEGORIES@),
            match key { Some(l) => Some(l@), None => None })),
{
    let ghost cats = categories_view(CATEGORIES@);
    let ghost want = match key { Some(l) => Some(l@), None => None };
    let all = BUILTIN_NAMES;
    let mut picked: Vec<&str> = Vec::new();
    let mut i: usize = 0;
    while i < all.len()
        invariant
            all@ == BUILTIN_NAMES@,
            i <= all@.len(),
            names_view(picked@) == names_in(names_view(all@.take(i as int)), cats, want),
            cats == categories_view(CATEGORIES@),
            want == match key { Some(l) => Some(l@), None => None },
        decreases all.len() - i,
    {
        let n = all[i];
        let ghost before = picked@;
        proof {
            let t = names_view(all@.take(i + 1));
            assert(t.drop_last() =~= names_view(all@.take(i as int)));
            assert(t.last() == n@);
        }
        if label_is(n, key) {
            picked.push(n);
            assert(names_view(picked@) =~= names_view(before).push(n@));
        }
        i += 1;
    }
    assert(all@.take(all@.len() as int) =~= all@);
    if picked.len() > 0 {
        out.push('*');
        out.push('*');
        out.append(label);
        out.push('*');
        out.push('*');
        out.push(':');
        out.push(' ');
        push_backtick_join(out, picked.as_slice());
        out.push('\n');
        out.push('\n');
        assert(out@ =~= old(out)@ + section(label@, names_view(picked@)));
    } else {
        assert(out@ =~= old(out)@ + section(label@, names_view(picked@)));
    }
}

fn push_params(out: &mut String, params: &[(String, String)])
    ensures final(out)@ == old(out)@ + params_text(params_view(params@)),
{
    let ghost o0 = out@;
    let mut i: usize = 0;
    while i < params.len()
        invariant
            i <= params@.len(),
            out@ == o0 + params_text(params_view(params@.take(i as int))),
        decreases params.len() - i,
    {
        if i > 0 {
            out.push(' ');
        }
        out.push('`');
        out.append(params[i].0.as_str());
        out.push('`');
        out.push('=');
        out.append(params[i].1.as_str());
        proof {
            let t = params_view(params@.take(i + 1));
            assert(t.drop_last() =~= params_view(params@.take(i as int)));
            assert(t.last() == (params@[i as int].0@, params@[i as int].1@));
            if i == 0 {
                assert(params_view(params@.take(0)) =~= Seq::<(Seq<char>, Seq<char>)>::empty());
            }
            assert(out@ =~= o0 + params_text(t));
        }
        i += 1;
    }
    assert(params@.take(params@.len() as int) =~= params@);
}

pub open spec fn params_view(s: Seq<(String, String)>) -> Seq<(Seq<char>, Seq<char>)> {
    s.map_values(|p: (String, String)| (p.0@, p.1@))
}

/// The compact summary of the language: overview, types, keywords, operators, syntax, the
/// builtins by category, the UGens `ugens` usable in define blocks and the default define
/// parameters `params` (name and value text), and how programs are run.
pub fn generate(ugens: &[&str], params: &[(String, String)]) -> (r: String)
    ensures
        r@ == summary_text(names_view(KEYWORDS@), names_view(BUILTIN_NAMES@), categories_view(CATEGORIES@),
            names_view(ugens@), params_view(params@)),
{
    let ghost cats = categories_view(CATEGORIES@);
    let ghost names = names_view(BUILTIN_NAMES@);
    let mut out = String::from_str(INTRO);
    let kw = KEYWORDS;
    push_backtick_join(&mut out, kw.as_slice());
    out.append(LANGUAGE);
    let ghost before_builtins = out@;
    push_section(&mut out, "core", None);
    let cs = CATEGORIES;
    let mut seen: Vec<&str> = Vec::new();
    let mut k: usize = 0;
    let ghost after_core = out@;
    while k < 18
        invariant
            cs@ == CATEGORIES@,
            cats == categories_view(CATEGORIES@),
            cats.len() == 18,
            names == names_view(BUILTIN_NAMES@),
            k <= 18,
            names_view(seen@) == labels_upto(cats, k as nat),
            out@ == after_core + sections(labels_upto(cats, k as nat), names, cats),
        decreases 18 - k,
    {
        let label = cs[k].0;
        assert(cats[k as int].0 == label@);
        let mut found = false;
        let mut j: usize = 0;
        while j < seen.len()
            invariant
                j <= seen@.len(),
                found == exists|t: int| 0 <= t < j && seen@[t]@ == label@,
            decreases seen.len() - j,
        {
            if str_eq(seen[j], label) {
                found = true;
            }
            j += 1;
        }
        proof {
            assert(found == names_view(seen@).contains(label@)) by {
                if found {
                    let t = choose|t: int| 0 <= t < seen@.len() && seen@[t]@ == label@;
                    assert(names_view(seen@)[t] == label@);
                }
                if names_view(seen@).contains(label@) {
                    let t = choose|t: int| 0 <= t < names_view(seen@).len() && names_view(seen@)[t] == label@;
                    assert(seen@[t]@ == label@);
                }
            }
        }
        if !found {
            let ghost before = seen@;
            seen.push(label);
            assert(names_view(seen@) =~= names_view(before).push(label@));
            push_section(&mut out, label, Some(label));
            proof {
                let ls = labels_upto(cats, (k + 1) as nat);
                assert(ls.drop_last() == labels_upto(cats, k as nat));
                assert(out@ =~= after_core + sections(ls, names, cats));
            }
        }
        k += 1;
    }
    assert(out@ =~= before_builtins + builtins_text(names, cats));
    out.append(UGENS_HEAD);
    push_backtick_join(&mut out, ugens);
    out.append(PARAMS_HEAD);
    push_params(&mut out, params);
    out.append(EXECUTION);
    out
}


proof fn lemma_best_upto(n: Seq<char>, cats: Seq<(Seq<char>, Seq<char>)>, k: nat)
    requires k <= cats.len(),
    ensures
        match best_upto(n, cats, k) {
            Some(b) => 0 <= b < k && cats[b].1.is_prefix_of(n)
                && forall|i: int| 0 <= i < k && #[trigger] cats[i].1.is_prefix_of(n) ==> cats[i].1.len() <= cats[b].1.len(),
            None => forall|i: int| 0 <= i < k ==> !#[trigger] cats[i].1.is_prefix_of(n),
        },
    decreases k,
{
    if k > 0 {
        lemma_best_upto(n, cats, (k - 1) as nat);
    }
}

/// A builtin goes to the category with the longest prefix it starts with; a builtin that
/// starts with no prefix has no category (and is listed under `core`).
pub proof fn law_category_is_longest_prefix(n: Seq<char>, cats: Seq<(Seq<char>, Seq<char>)>)
    ensures
        match best_upto(n, cats, cats.len()) {
            Some(b) => 0 <= b < cats.len() && cats[b].1.is_prefix_of(n)
                && category_of(n, cats) == Some(cats[b].0)
                && forall|i: int| 0 <= i < cats.len() && #[trigger] cats[i].1.is_prefix_of(n)
                    ==> cats[i].1.len() <= cats[b].1.len(),
            None => category_of(n, cats) is None
                && forall|i: int| 0 <= i < cats.len() ==> !#[trigger] cats[i].1.is_prefix_of(n),
        },
{
    lemma_best_upto(n, cats, cats.len());
}

} // verus!
