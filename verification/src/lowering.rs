//! Lowering of a parsed tsrust module to Rust source text.
use vstd::prelude::*;
use vstd::string::*;
use crate::ast::{ArrowBody, ImportItem, Item, Module, Param, ParamKind, SpecArrowBody, SpecImportItem, SpecItem, SpecParam, SpecParamKind, items_view, params_view, strings_view};
use crate::parser::{parse_module, spec_parse_module};
use crate::paths::join;
use crate::text::{chars_of, is_ws, push_char, push_str, trim, trimmed, unicode_ws};

verus! {

/// The crate version.
pub fn version() -> (v: &'static str)
    ensures
        v@ == "0.1.0"@,
{
    "0.1.0"
}

/// Hooks used while lowering: one rewrites function bodies, one turns module
/// specifiers into Rust paths.
pub struct LowerOptions<B, P> {
    pub rewrite_body: B,
    pub normalize_path: P,
}

/// `parts.join(sep)` appended to `out`.
pub fn push_joined(out: &mut String, parts: &Vec<String>, sep: &str)
    ensures
        final(out)@ == old(out)@ + join(strings_view(parts@), sep@),
{
    let ghost pv = strings_view(parts@);
    let mut k: usize = 0;
    let mut acc = String::new();
    while k < parts.len()
        invariant
            k <= parts@.len(),
            pv == strings_view(parts@),
            acc@ == join(pv.take(k as int), sep@),
            *out == *old(out),
        decreases parts@.len() - k,
    {
        if k > 0 {
            push_str(&mut acc, sep);
        }
        push_str(&mut acc, parts[k].as_str());
        assert(pv.take(k + 1).drop_last() =~= pv.take(k as int));
        k += 1;
    }
    assert(pv.take(k as int) =~= pv);
    push_str(out, acc.as_str());
}

/// Tidies a nested import group: one space after each comma inside braces.
pub open spec fn pretty_state(s: Seq<char>) -> (Seq<char>, bool, bool)
    decreases s.len(),
{
    if s.len() == 0 {
        (Seq::empty(), false, false)
    } else {
        let (out, inb, jwc) = pretty_state(s.drop_last());
        let c = s.last();
        if c == '{' {
            (out.push('{'), true, false)
        } else if c == '}' {
            (out.push('}'), false, false)
        } else if c == ',' && inb {
            (out.push(',').push(' '), inb, true)
        } else if jwc && is_ws(c) {
            (out, inb, jwc)
        } else {
            (out.push(c), inb, false)
        }
    }
}

pub open spec fn spec_prettify_nested(s: Seq<char>) -> Seq<char> {
    pretty_state(s).0
}

fn prettify_nested_path(s: &str) -> (r: String)
    ensures
        r@ == spec_prettify_nested(s@),
{
    let v = chars_of(s);
    let mut out = String::new();
    let mut in_braces = false;
    let mut just_wrote_comma = false;
    let mut i: usize = 0;
    while i < v.len()
        invariant
            i <= v@.len(),
            v@ == s@,
            (out@, in_braces, just_wrote_comma) == pretty_state(v@.subrange(0, i as int)),
        decreases v@.len() - i,
    {
        let c = v[i];
        assert(v@.subrange(0, i + 1).drop_last() =~= v@.subrange(0, i as int));
        if c == '{' {
            in_braces = true;
            just_wrote_comma = false;
            push_char(&mut out, '{');
        } else if c == '}' {
            in_braces = false;
            just_wrote_comma = false;
            push_char(&mut out, '}');
        } else if c == ',' && in_braces {
            push_char(&mut out, ',');
            push_char(&mut out, ' ');
            just_wrote_comma = true;
        } else if just_wrote_comma && unicode_ws(c) {
        } else {
            push_char(&mut out, c);
            just_wrote_comma = false;
        }
        i += 1;
    }
    assert(v@.subrange(0, i as int) =~= s@);
    out
}

/// The `use` line for one imported name of a module at Rust path `path`.
pub open spec fn spec_import_line(path: Seq<char>, it: SpecImportItem) -> Seq<char> {
    match it {
        SpecImportItem::Star => "use "@ + path + "::*;\n"@,
        SpecImportItem::StarAs(a) => "use "@ + path + " as "@ + a + ";\n"@,
        SpecImportItem::Simple(n) => "use "@ + path + "::"@ + n + ";\n"@,
        SpecImportItem::Aliased { name, alias } => "use "@ + path + "::"@ + name + " as "@ + alias + ";\n"@,
        SpecImportItem::Nested { path: nested } => "use "@ + path + "::"@ + spec_prettify_nested(nested) + ";\n"@,
    }
}

pub open spec fn spec_import_lines(path: Seq<char>, its: Seq<SpecImportItem>) -> Seq<char>
    decreases its.len(),
{
    if its.len() == 0 {
        Seq::empty()
    } else {
        spec_import_lines(path, its.drop_last()) + spec_import_line(path, its.last())
    }
}

/// Rust text of one parameter.
pub open spec fn spec_param_text(p: SpecParam) -> Seq<char> {
    match p.kind {
        SpecParamKind::Normal => p.name + ": "@ + p.ty,
        _ => p.name + ": Option<"@ + p.ty + ">"@,
    }
}

/// The default-value initializer a parameter needs, if any.
pub open spec fn spec_param_init(p: SpecParam) -> Seq<char> {
    match p.kind {
        SpecParamKind::Defaulted(d) => "let "@ + p.name + " = "@ + p.name + ".unwrap_or("@ + d + ");"@ + "\n"@,
        _ => Seq::empty(),
    }
}

pub open spec fn spec_param_texts(ps: Seq<SpecParam>) -> Seq<Seq<char>> {
    ps.map_values(|p: SpecParam| spec_param_text(p))
}

/// All default initializers of `ps`, one per line.
pub open spec fn spec_inits(ps: Seq<SpecParam>) -> Seq<char>
    decreases ps.len(),
{
    if ps.len() == 0 {
        Seq::empty()
    } else {
        spec_inits(ps.drop_last()) + spec_param_init(ps.last())
    }
}

pub open spec fn pub_prefix(exported: bool) -> Seq<char> {
    if exported {
        "pub "@
    } else {
        Seq::empty()
    }
}

/// A function definition whose body `b` is inline when it fits on one line; it
/// names a return type `r` when `ret` is `Some(r)`.
pub open spec fn spec_fn_text(exported: bool, name: Seq<char>, ps: Seq<SpecParam>, ret: Option<Seq<char>>, b: Seq<char>) -> Seq<char> {
    let head = pub_prefix(exported) + "fn "@ + name + "("@ + join(spec_param_texts(ps), ", "@) + ")"@;
    let head = match ret {
        Some(r) => head + " -> "@ + r,
        None => head,
    };
    if !b.contains('\n') {
        head + " { "@ + b + " }\n"@
    } else {
        head + " {\n"@ + b + "\n}\n"@
    }
}

/// The return type a function names: its declared type, trimmed, unless that is
/// missing or blank.
pub open spec fn fn_ret(ret: Option<Seq<char>>) -> Option<Seq<char>> {
    match ret {
        Some(r) => if trim(r).len() > 0 {
            Some(trim(r))
        } else {
            None
        },
        None => None,
    }
}

/// The Rust text of one item, given what its hook returned (`h`): the Rust path of
/// its module for imports and re-exports, the rewritten body for functions.
pub open spec fn spec_lower_item(it: SpecItem, h: Seq<char>) -> Seq<char> {
    match it {
        SpecItem::Import { items, from, span } => spec_import_lines(h, items),
        SpecItem::ExportStar { from, span } => "pub use "@ + h + "::*;\n"@,
        SpecItem::ReExport { items, from, span } => "pub use "@ + h + "::{"@ + join(items, ", "@) + "};\n"@,
        SpecItem::ReExportLocal { items, span } => "pub use self::{"@ + join(items, ", "@) + "};\n"@,
        SpecItem::ExportedFn(f) => spec_fn_text(true, f.name, f.params, fn_ret(f.ret), trim(spec_inits(f.params) + h)),
        SpecItem::Fn(f) => spec_fn_text(false, f.name, f.params, fn_ret(f.ret), trim(spec_inits(f.params) + h)),
        SpecItem::ExportedArrow(a) => spec_fn_text(true, a.name, a.params, Some(trim(a.ret)), trim(spec_inits(a.params) + h)),
        SpecItem::VarArrow { name, params, ret, body, is_move, span } => "let "@ + name + " = "@ + (if is_move {
            "move "@
        } else {
            Seq::empty()
        }) + "|"@ + join(spec_param_texts(params), ", "@) + "| -> "@ + trim(ret) + " {\n"@ + trim(spec_inits(params) + h)
            + "\n};\n"@,
    }
}

/// The text handed to an item's hook: `Some((true, body))` for the body hook,
/// `Some((false, specifier))` for the path hook, `None` when no hook is called.
pub open spec fn hook_input(it: SpecItem) -> Option<(bool, Seq<char>)> {
    match it {
        SpecItem::Import { items, from, span } => Some((false, from)),
        SpecItem::ExportStar { from, span } => Some((false, from)),
        SpecItem::ReExport { items, from, span } => Some((false, from)),
        SpecItem::ReExportLocal { items, span } => None,
        SpecItem::ExportedFn(f) => Some((true, f.body_src)),
        SpecItem::Fn(f) => Some((true, f.body_src)),
        SpecItem::ExportedArrow(a) => Some((true, match a.body {
            SpecArrowBody::Block(b) => b,
            SpecArrowBody::Expr(e) => e,
        })),
        SpecItem::VarArrow { name, params, ret, body, is_move, span } => Some((true, match body {
            SpecArrowBody::Block(b) => b,
            SpecArrowBody::Expr(e) => e,
        })),
    }
}

/// The Rust text of `items`, the `k`-th lowered with hook result `hs[k]`.
pub open spec fn spec_lower_items(items: Seq<SpecItem>, hs: Seq<Seq<char>>) -> Seq<char>
    decreases items.len(),
{
    if items.len() == 0 {
        Seq::empty()
    } else {
        spec_lower_items(items.drop_last(), hs) + spec_lower_item(items.last(), hs[items.len() - 1])
    }
}


/// Parameter texts and default initializers of `params`.
fn rewrite_params(params: &Vec<Param>) -> (r: (Vec<String>, String))
    ensures
        strings_view(r.0@) == spec_param_texts(params_view(params@)),
        r.1@ == spec_inits(params_view(params@)),
{
    let ghost pv = params_view(params@);
    let mut ps: Vec<String> = Vec::new();
    let mut init = String::new();
    let mut k: usize = 0;
    while k < params.len()
        invariant
            k <= params@.len(),
            pv == params_view(params@),
            strings_view(ps@) == spec_param_texts(pv.take(k as int)),
            init@ == spec_inits(pv.take(k as int)),
        decreases params@.len() - k,
    {
        let p = &params[k];
        let mut t = String::new();
        push_str(&mut t, p.name.as_str());
        match &p.kind {
            ParamKind::Normal => {
                push_str(&mut t, ": ");
                push_str(&mut t, p.ty.as_str());
            },
            ParamKind::Optional => {
                push_str(&mut t, ": Option<");
                push_str(&mut t, p.ty.as_str());
                push_str(&mut t, ">");
            },
            ParamKind::Defaulted(def) => {
                push_str(&mut t, ": Option<");
                push_str(&mut t, p.ty.as_str());
                push_str(&mut t, ">");
                push_str(&mut init, "let ");
                push_str(&mut init, p.name.as_str());
                push_str(&mut init, " = ");
                push_str(&mut init, p.name.as_str());
                push_str(&mut init, ".unwrap_or(");
                push_str(&mut init, def.as_str());
                push_str(&mut init, ");");
                push_str(&mut init, "\n");
            },
        }
        let ghost old_ps = ps@;
        ps.push(t);
        assert(pv.take(k + 1).drop_last() =~= pv.take(k as int));
        assert(pv.take(k + 1).last() == params@[k as int]@);
        assert(strings_view(ps@) =~= strings_view(old_ps).push(ps@.last()@));
        assert(spec_param_texts(pv.take(k + 1)) =~= spec_param_texts(pv.take(k as int)).push(
            spec_param_text(params@[k as int]@),
        ));
        k += 1;
    }
    assert(pv.take(k as int) =~= pv);
    (ps, init)
}

fn has_newline(s: &str) -> (r: bool)
    ensures
        r == s@.contains('\n'),
{
    let v = chars_of(s);
    let mut i: usize = 0;
    while i < v.len()
        invariant
            v@ == s@,
            i <= v@.len(),
            forall|j: int| 0 <= j < i ==> v@[j] != '\n',
        decreases v@.len() - i,
    {
        if v[i] == '\n' {
            return true;
        }
        i += 1;
    }
    false
}

fn trim_str(s: &str) -> (r: String)
    ensures
        r@ == trim(s@),
{
    let v = chars_of(s);
    assert(v@.subrange(0, v@.len() as int) =~= s@);
    trimmed(&v, 0, v.len())
}

/// A function definition; `h` is the rewritten body.
fn fn_text(exported: bool, name: &String, params: &Vec<Param>, ret: Option<String>, h: &str) -> (r: String)
    ensures
        r@ == spec_fn_text(exported, name@, params_view(params@), match ret {
            Some(x) => Some(x@),
            None => None,
        }, trim(spec_inits(params_view(params@)) + h@)),
{
    let (ps, inits) = rewrite_params(params);
    let mut body = inits;
    push_str(&mut body, h);
    let b = trim_str(body.as_str());
    let mut out = String::new();
    if exported {
        push_str(&mut out, "pub ");
    }
    push_str(&mut out, "fn ");
    push_str(&mut out, name.as_str());
    push_str(&mut out, "(");
    push_joined(&mut out, &ps, ", ");
    push_str(&mut out, ")");
    match &ret {
        Some(r) => {
            push_str(&mut out, " -> ");
            push_str(&mut out, r.as_str());
        },
        None => {},
    }
    if !has_newline(b.as_str()) {
        push_str(&mut out, " { ");
        push_str(&mut out, b.as_str());
        push_str(&mut out, " }\n");
    } else {
        push_str(&mut out, " {\n");
        push_str(&mut out, b.as_str());
        push_str(&mut out, "\n}\n");
    }
    out
}

/// Appends the Rust text of `it`, lowered with hook result `h`.
fn lower_item(out: &mut String, it: &Item, h: &str)
    ensures
        final(out)@ == old(out)@ + spec_lower_item(it@, h@),
{
    match it {
        Item::Import(d) => {
            let ghost iv = crate::ast::import_items_view(d.items@);
            let mut k: usize = 0;
            let mut acc = String::new();
            while k < d.items.len()
                invariant
                    k <= d.items@.len(),
                    iv == crate::ast::import_items_view(d.items@),
                    acc@ == spec_import_lines(h@, iv.take(k as int)),
                decreases d.items@.len() - k,
            {
                push_str(&mut acc, "use ");
                push_str(&mut acc, h);
                match &d.items[k] {
                    ImportItem::Star => {
                        push_str(&mut acc, "::*;\n");
                    },
                    ImportItem::StarAs(a) => {
                        push_str(&mut acc, " as ");
                        push_str(&mut acc, a.as_str());
                        push_str(&mut acc, ";\n");
                    },
                    ImportItem::Simple(n) => {
                        push_str(&mut acc, "::");
                        push_str(&mut acc, n.as_str());
                        push_str(&mut acc, ";\n");
                    },
                    ImportItem::Aliased { name, alias } => {
                        push_str(&mut acc, "::");
                        push_str(&mut acc, name.as_str());
                        push_str(&mut acc, " as ");
                        push_str(&mut acc, alias.as_str());
                        push_str(&mut acc, ";\n");
                    },
                    ImportItem::Nested { path } => {
                        let pretty = prettify_nested_path(path.as_str());
                        push_str(&mut acc, "::");
                        push_str(&mut acc, pretty.as_str());
                        push_str(&mut acc, ";\n");
                    },
                }
                assert(iv.take(k + 1).drop_last() =~= iv.take(k as int));
                assert(iv.take(k + 1).last() == d.items@[k as int]@);
                k += 1;
            }
            assert(iv.take(k as int) =~= iv);
            push_str(out, acc.as_str());
        },
        Item::ExportStar(_) => {
            push_str(out, "pub use ");
            push_str(out, h);
            push_str(out, "::*;\n");
        },
        Item::ReExport(r) => {
            push_str(out, "pub use ");
            push_str(out, h);
            push_str(out, "::{");
            push_joined(out, &r.items, ", ");
            push_str(out, "};\n");
        },
        Item::ReExportLocal(e) => {
            push_str(out, "pub use self::{");
            push_joined(out, &e.items, ", ");
            push_str(out, "};\n");
        },
        Item::ExportedFn(f) => {
            let ret = match &f.ret {
                Some(t) => {
                    let r = trim_str(t.text.as_str());
                    if r.unicode_len() > 0 {
                        Some(r)
                    } else {
                        None
                    }
                },
                None => None,
            };
            let t = fn_text(true, &f.name, &f.params, ret, h);
            push_str(out, t.as_str());
        },
        Item::Fn(f) => {
            let ret = match &f.ret {
                Some(t) => {
                    let r = trim_str(t.text.as_str());
                    if r.unicode_len() > 0 {
                        Some(r)
                    } else {
                        None
                    }
                },
                None => None,
            };
            let t = fn_text(false, &f.name, &f.params, ret, h);
            push_str(out, t.as_str());
        },
        Item::ExportedArrow(a) => {
            let t = fn_text(true, &a.name, &a.params, Some(trim_str(a.ret.text.as_str())), h);
            push_str(out, t.as_str());
        },
        Item::VarArrow(v) => {
            let (ps, inits) = rewrite_params(&v.params);
            let mut body = inits;
            push_str(&mut body, h);
            let b = trim_str(body.as_str());
            push_str(out, "let ");
            push_str(out, v.name.as_str());
            push_str(out, " = ");
            if v.is_move {
                push_str(out, "move ");
            }
            push_str(out, "|");
            push_joined(out, &ps, ", ");
            push_str(out, "| -> ");
            let r = trim_str(v.ret.text.as_str());
            push_str(out, r.as_str());
            push_str(out, " {\n");
            push_str(out, b.as_str());
            push_str(out, "\n};\n");
        },
    }
}

/// The Rust text of `m`'s items, the `k`-th lowered with hook result `hooks[k]`.
pub fn lower_items(m: &Module, hooks: &Vec<String>) -> (r: String)
    requires
        hooks@.len() == m.items@.len(),
    ensures
        r@ == spec_lower_items(items_view(m.items@), strings_view(hooks@)),
{
    let ghost iv = items_view(m.items@);
    let ghost hv = strings_view(hooks@);
    let mut out = String::new();
    let mut k: usize = 0;
    while k < m.items.len()
        invariant
            k <= m.items@.len(),
            hooks@.len() == m.items@.len(),
            iv == items_view(m.items@),
            hv == strings_view(hooks@),
            out@ == spec_lower_items(iv.take(k as int), hv),
        decreases m.items@.len() - k,
    {
        lower_item(&mut out, &m.items[k], hooks[k].as_str());
        assert(iv.take(k + 1).drop_last() =~= iv.take(k as int));
        assert(iv.take(k + 1).last() == m.items@[k as int]@);
        k += 1;
    }
    assert(iv.take(k as int) =~= iv);
    out
}


/// `f` may return `output` when handed text `input`.
pub open spec fn hook_gave<F: Fn(&str) -> String>(f: F, input: Seq<char>, output: Seq<char>) -> bool {
    exists|x: &str, r: String| x@ == input && r@ == output && call_ensures(f, (x,), r)
}

/// `h` is a result the hooks of `opts` may give for item `it`.
pub open spec fn hook_result<B: Fn(&str) -> String, P: Fn(&str) -> String>(
    opts: &LowerOptions<B, P>,
    it: SpecItem,
    h: Seq<char>,
) -> bool {
    match hook_input(it) {
        Some((is_body, x)) => if is_body {
            hook_gave(opts.rewrite_body, x, h)
        } else {
            hook_gave(opts.normalize_path, x, h)
        },
        None => h.len() == 0,
    }
}

/// Parses `src` and lowers it to Rust, calling `rewrite_body` on each function
/// body and `normalize_path` on each module specifier, in item order.
pub fn lower_to_rust<B: Fn(&str) -> String, P: Fn(&str) -> String>(src: &str, opts: &LowerOptions<B, P>) -> (out: String)
    requires
        forall|x: &str| call_requires(opts.rewrite_body, (x,)),
        forall|x: &str| call_requires(opts.normalize_path, (x,)),
    ensures
        exists|hs: Seq<Seq<char>>|
            #![trigger spec_lower_items(spec_parse_module(src@), hs)]
            {
                &&& hs.len() == spec_parse_module(src@).len()
                &&& forall|k: int| 0 <= k < hs.len() ==> hook_result(opts, spec_parse_module(src@)[k], #[trigger] hs[k])
                &&& out@ == spec_lower_items(spec_parse_module(src@), hs)
            },
{
    let m = parse_module(src);
    let ghost iv = items_view(m.items@);
    let mut hooks: Vec<String> = Vec::new();
    let mut k: usize = 0;
    while k < m.items.len()
        invariant
            k <= m.items@.len(),
            hooks@.len() == k,
            iv == items_view(m.items@),
            forall|x: &str| call_requires(opts.rewrite_body, (x,)),
            forall|x: &str| call_requires(opts.normalize_path, (x,)),
            forall|j: int| 0 <= j < k ==> hook_result(opts, iv[j], #[trigger] strings_view(hooks@)[j]),
        decreases m.items@.len() - k,
    {
        let h = match &m.items[k] {
            Item::Import(d) => (opts.normalize_path)(d.from.as_str()),
            Item::ExportStar(e) => (opts.normalize_path)(e.from.as_str()),
            Item::ReExport(r) => (opts.normalize_path)(r.from.as_str()),
            Item::ReExportLocal(_) => String::new(),
            Item::ExportedFn(f) => (opts.rewrite_body)(f.body_src.as_str()),
            Item::Fn(f) => (opts.rewrite_body)(f.body_src.as_str()),
            Item::ExportedArrow(a) => match &a.body {
                ArrowBody::Block(b) => (opts.rewrite_body)(b.as_str()),
                ArrowBody::Expr(e) => (opts.rewrite_body)(e.as_str()),
            },
            Item::VarArrow(v) => match &v.body {
                ArrowBody::Block(b) => (opts.rewrite_body)(b.as_str()),
                ArrowBody::Expr(e) => (opts.rewrite_body)(e.as_str()),
            },
        };
        assert(hook_result(opts, iv[k as int], h@));
        let ghost old_h = hooks@;
        hooks.push(h);
        assert forall|j: int| 0 <= j < k + 1 implies hook_result(opts, iv[j], #[trigger] strings_view(hooks@)[j]) by {
            if j < k {
                assert(strings_view(hooks@)[j] == strings_view(old_h)[j]);
            }
        }
        k += 1;
    }
    let out = lower_items(&m, &hooks);
    assert(iv == spec_parse_module(src@));
    out
}

} // verus!
