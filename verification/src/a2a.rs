//! Agent-card export: one card per `agent` block, or a single card that
//! wraps the top-level fns when the program declares no agent. Cards have
//! the agent-card shape: name, description, version, url, capabilities,
//! input and output modes, and one skill per fn.

use vstd::prelude::*;
use crate::ast::{params_v, strs_v, Item, ItemV, Param, ParamV, TypeExpr, TypeExprV};
use crate::check::items_v;
use crate::json::{Json, JsonV};
use crate::lsp::{arr, json_views, member_of, obj, obj2, obj3};
use crate::text::{lowercase, push_str, string_of, to_lowercase};
use crate::typing::comma_join;

verus! {

/// How a type is written in a skill's signature.
pub open spec fn ty_name_v(t: TypeExprV) -> Seq<char>
    decreases t,
{
    match t {
        TypeExprV::Named(n) => n,
        TypeExprV::List(inner) => "["@ + ty_name_v(*inner) + "]"@,
        TypeExprV::Record(ks, vs) => "{"@ + fields_v(ks, vs) + "}"@,
        TypeExprV::Refine(inner, name, _) => ty_name_v(*inner) + " @"@ + name + "(…)"@,
    }
}

/// `name: type` fields separated by `, `.
pub open spec fn fields_v(ks: Seq<Seq<char>>, vs: Seq<TypeExprV>) -> Seq<char>
    decreases vs,
{
    if vs.len() == 0 {
        Seq::empty()
    } else {
        let item = ks[vs.len() - 1] + ": "@ + ty_name_v(vs.last());
        if vs.len() == 1 {
            item
        } else {
            fields_v(ks, vs.drop_last()) + ", "@ + item
        }
    }
}

/// Appends how `t` is written in a signature.
#[verifier::loop_isolation(false)]
fn push_ty_name(out: &mut String, t: &TypeExpr)
    ensures
        final(out)@ == old(out)@ + ty_name_v(t@),
    decreases t,
{
    let ghost o = out@;
    match t {
        TypeExpr::Named(n) => push_str(out, n.as_str()),
        TypeExpr::List(inner) => {
            push_str(out, "[");
            push_ty_name(out, &**inner);
            push_str(out, "]");
            assert(out@ =~= o + ty_name_v(t@));
        },
        TypeExpr::Refine(inner, name, _) => {
            push_ty_name(out, &**inner);
            push_str(out, " @");
            push_str(out, name.as_str());
            push_str(out, "(…)");
            assert(out@ =~= o + ty_name_v(t@));
        },
        TypeExpr::Record(fs) => {
            let ghost ks = t@->Record_0;
            let ghost vs = t@->Record_1;
            push_str(out, "{");
            let mut i: usize = 0;
            while i < fs.len()
                invariant
                    i <= fs@.len() == ks.len() == vs.len(),
                    t@ == TypeExprV::Record(ks, vs),
                    forall|j: int| 0 <= j < fs@.len() ==> ks[j] == (#[trigger] fs@[j]).0@,
                    forall|j: int| 0 <= j < fs@.len() ==> vs[j] == (#[trigger] fs@[j]).1@,
                    out@ == o + "{"@ + fields_v(ks, vs.take(i as int)),
                decreases fs@.len() - i,
            {
                let ghost before = out@;
                if i > 0 {
                    push_str(out, ", ");
                }
                push_str(out, fs[i].0.as_str());
                push_str(out, ": ");
                push_ty_name(out, &fs[i].1);
                proof {
                    assert(vs.take(i + 1).drop_last() =~= vs.take(i as int));
                    let item = ks[i as int] + ": "@ + ty_name_v(vs[i as int]);
                    if i > 0 {
                        assert(out@ =~= before + ", "@ + item);
                    } else {
                        assert(out@ =~= before + item);
                    }
                }
                i = i + 1;
            }
            push_str(out, "}");
            assert(vs.take(fs@.len() as int) =~= vs);
            assert(out@ =~= o + ty_name_v(t@));
        },
    }
}

/// `name: type` parameters separated by `, `.
pub open spec fn params_str(ps: Seq<ParamV>) -> Seq<char>
    decreases ps.len(),
{
    if ps.len() == 0 {
        Seq::empty()
    } else {
        let item = ps.last().name + ": "@ + ty_name_v(ps.last().ty);
        if ps.len() == 1 {
            item
        } else {
            params_str(ps.drop_last()) + ", "@ + item
        }
    }
}

/// A fn's signature as a skill describes it.
pub open spec fn sig_v(name: Seq<char>, ps: Seq<ParamV>, ret: TypeExprV, effects: Seq<Seq<char>>) -> Seq<char> {
    name + "("@ + params_str(ps) + ") -> "@ + ty_name_v(ret) + if effects.len() == 0 {
        Seq::<char>::empty()
    } else {
        " uses "@ + comma_join(effects)
    }
}

/// A skill: the fn's name as id and name, its signature as description,
/// and its effects lowercased as tags (`pure` when it has none).
pub open spec fn skill_v(name: Seq<char>, ps: Seq<ParamV>, ret: TypeExprV, effects: Seq<Seq<char>>) -> JsonV {
    JsonV::Obj(
        seq!["id"@, "name"@, "description"@, "tags"@],
        seq![
            JsonV::Str(name),
            JsonV::Str(name),
            JsonV::Str("Nudge fn `"@ + sig_v(name, ps, ret, effects) + "`"@),
            JsonV::Arr(
                if effects.len() == 0 {
                    seq![JsonV::Str("pure"@)]
                } else {
                    Seq::new(effects.len(), |i: int| JsonV::Str(lowercase(effects[i])))
                },
            ),
        ],
    )
}

/// An agent card.
pub open spec fn card_v(name: Seq<char>, skills: Seq<JsonV>) -> JsonV {
    JsonV::Obj(
        seq![
            "name"@,
            "description"@,
            "version"@,
            "url"@,
            "capabilities"@,
            "defaultInputModes"@,
            "defaultOutputModes"@,
            "skills"@,
        ],
        seq![
            JsonV::Str(name),
            JsonV::Str(
                "Nudge agent '"@ + name
                    + "' — compiled from .ndg (https://github.com/NekomyaDev/nudge)"@,
            ),
            JsonV::Str("1.0.0"@),
            JsonV::Str("http://localhost:9999/"@),
            JsonV::Obj(
                seq!["streaming"@, "pushNotifications"@, "stateTransitionHistory"@],
                seq![JsonV::Bool(false), JsonV::Bool(false), JsonV::Bool(true)],
            ),
            JsonV::Arr(seq![JsonV::Str("text"@)]),
            JsonV::Arr(seq![JsonV::Str("text"@)]),
            JsonV::Arr(skills),
        ],
    )
}

/// The skills of the fns among `items`, in order.
pub open spec fn fn_skills(items: Seq<ItemV>) -> Seq<JsonV>
    decreases items.len(),
{
    if items.len() == 0 {
        Seq::empty()
    } else {
        let a = fn_skills(items.drop_last());
        match items.last() {
            ItemV::Fn(n, ps, ret, effs, _) => a.push(skill_v(n, ps, ret, effs)),
            _ => a,
        }
    }
}

/// One `(file stem, card)` per agent block, its stem the agent's name
/// lowercased.
pub open spec fn agent_cards(items: Seq<ItemV>) -> Seq<(Seq<char>, JsonV)>
    decreases items.len(),
{
    if items.len() == 0 {
        Seq::empty()
    } else {
        let a = agent_cards(items.drop_last());
        match items.last() {
            ItemV::Agent(n, _, _, _, fns) => a.push((lowercase(n), card_v(n, fn_skills(fns)))),
            _ => a,
        }
    }
}

/// The cards of a program: one per agent block; without agents, one card
/// named `stem` for the top-level fns.
pub open spec fn cards_v(items: Seq<ItemV>, stem: Seq<char>) -> Seq<(Seq<char>, JsonV)> {
    if agent_cards(items).len() > 0 {
        agent_cards(items)
    } else {
        seq![(stem, card_v(stem, fn_skills(items)))]
    }
}

} // verus!

verus! {

fn push_params(out: &mut String, ps: &Vec<Param>)
    ensures
        final(out)@ == old(out)@ + params_str(params_v(ps@)),
{
    let ghost o = out@;
    let ghost pv = params_v(ps@);
    let mut i: usize = 0;
    proof {
        assert(pv.take(0) =~= Seq::<ParamV>::empty());
        assert(out@ =~= o + params_str(pv.take(0)));
    }
    while i < ps.len()
        invariant
            i <= ps@.len() == pv.len(),
            pv == params_v(ps@),
            o == old(out)@,
            out@ == o + params_str(pv.take(i as int)),
        decreases ps@.len() - i,
    {
        let ghost before = out@;
        if i > 0 {
            push_str(out, ", ");
        }
        push_str(out, ps[i].name.as_str());
        push_str(out, ": ");
        push_ty_name(out, &ps[i].ty);
        proof {
            assert(pv.take(i + 1).drop_last() =~= pv.take(i as int));
            assert(pv.take(i + 1).last() == pv[i as int]);
            let item = pv[i as int].name + ": "@ + ty_name_v(pv[i as int].ty);
            if i > 0 {
                assert(out@ =~= before + ", "@ + item);
            } else {
                assert(out@ =~= before + item);
            }
        }
        i = i + 1;
    }
    proof {
        assert(pv.take(ps@.len() as int) =~= pv);
    }
}

/// A fn's skill entry.
fn skill(name: &str, params: &Vec<Param>, ret: &TypeExpr, effects: &Vec<String>) -> (r: Json)
    ensures
        r@ == skill_v(name@, params_v(params@), ret@, strs_v(effects@)),
{
    let mut sig = string_of(name);
    push_str(&mut sig, "(");
    push_params(&mut sig, params);
    push_str(&mut sig, ") -> ");
    push_ty_name(&mut sig, ret);
    if effects.len() > 0 {
        push_str(&mut sig, " uses ");
        crate::check::push_comma_join(&mut sig, effects);
    }
    proof {
        assert(sig@ =~= sig_v(name@, params_v(params@), ret@, strs_v(effects@)));
    }
    let mut desc = string_of("Nudge fn `");
    push_str(&mut desc, sig.as_str());
    push_str(&mut desc, "`");
    let mut tags: Vec<Json> = Vec::new();
    if effects.len() == 0 {
        tags.push(Json::str("pure"));
        proof {
            assert(json_views(tags@) =~= seq![JsonV::Str("pure"@)]);
        }
    } else {
        let mut i: usize = 0;
        while i < effects.len()
            invariant
                i <= effects@.len(),
                json_views(tags@) == Seq::new(i as nat, |q: int| JsonV::Str(lowercase(effects@[q]@))),
            decreases effects@.len() - i,
        {
            let ghost before = json_views(tags@);
            let low = to_lowercase(effects[i].as_str());
            assert(low@ == lowercase(effects@[i as int]@));
            tags.push(Json::Str(low));
            proof {
                assert(json_views(tags@) =~= before.push(JsonV::Str(lowercase(effects@[i as int]@))));
                assert(json_views(tags@) =~= Seq::new((i + 1) as nat, |q: int| JsonV::Str(lowercase(effects@[q]@))));
            }
            i = i + 1;
        }
        proof {
            assert(json_views(tags@) =~= Seq::new(
                strs_v(effects@).len(),
                |q: int| JsonV::Str(lowercase(strs_v(effects@)[q])),
            ));
        }
    }
    let mut m: Vec<(String, Json)> = Vec::new();
    m.push(member_of("id", Json::str(name)));
    m.push(member_of("name", Json::str(name)));
    m.push(member_of("description", Json::Str(desc)));
    m.push(member_of("tags", arr(tags)));
    let r = obj(m);
    proof {
        assert(r@->Obj_0 =~= skill_v(name@, params_v(params@), ret@, strs_v(effects@))->Obj_0);
        assert(r@->Obj_1 =~= skill_v(name@, params_v(params@), ret@, strs_v(effects@))->Obj_1);
    }
    r
}

fn text_modes() -> (r: Json)
    ensures
        r@ == JsonV::Arr(seq![JsonV::Str("text"@)]),
{
    let mut v: Vec<Json> = Vec::new();
    v.push(Json::str("text"));
    proof {
        assert(json_views(v@) =~= seq![JsonV::Str("text"@)]);
    }
    arr(v)
}

/// An agent card with the given skills.
fn card(name: &str, skills: Vec<Json>) -> (r: Json)
    ensures
        r@ == card_v(name@, json_views(skills@)),
{
    let mut desc = string_of("Nudge agent '");
    push_str(&mut desc, name);
    push_str(&mut desc, "' — compiled from .ndg (https://github.com/NekomyaDev/nudge)");
    let caps = obj3(
        "streaming",
        Json::Bool(false),
        "pushNotifications",
        Json::Bool(false),
        "stateTransitionHistory",
        Json::Bool(true),
    );
    let mut m: Vec<(String, Json)> = Vec::new();
    m.push(member_of("name", Json::str(name)));
    m.push(member_of("description", Json::Str(desc)));
    m.push(member_of("version", Json::str("1.0.0")));
    m.push(member_of("url", Json::str("http://localhost:9999/")));
    m.push(member_of("capabilities", caps));
    m.push(member_of("defaultInputModes", text_modes()));
    m.push(member_of("defaultOutputModes", text_modes()));
    m.push(member_of("skills", arr(skills)));
    let r = obj(m);
    proof {
        assert(r@->Obj_0 =~= card_v(name@, json_views(skills@))->Obj_0);
        assert(r@->Obj_1 =~= card_v(name@, json_views(skills@))->Obj_1);
    }
    r
}

/// The skills of the fns among `items`.
fn skills_of(items: &[Item]) -> (r: Vec<Json>)
    ensures
        json_views(r@) == fn_skills(items_v(items@)),
{
    let ghost iv = items_v(items@);
    let mut out: Vec<Json> = Vec::new();
    let mut i: usize = 0;
    proof {
        assert(iv.take(0) =~= Seq::<ItemV>::empty());
        assert(json_views(out@) =~= Seq::<JsonV>::empty());
    }
    while i < items.len()
        invariant
            i <= items@.len() == iv.len(),
            iv == items_v(items@),
            json_views(out@) == fn_skills(iv.take(i as int)),
        decreases items@.len() - i,
    {
        proof {
            assert(iv.take(i + 1).drop_last() =~= iv.take(i as int));
            assert(iv.take(i + 1).last() == items@[i as int]@);
        }
        let ghost before = json_views(out@);
        match &items[i] {
            Item::Fn { name, params, ret, effects, .. } => {
                out.push(skill(name.as_str(), params, ret, effects));
                proof {
                    assert(json_views(out@) =~= before.push(skill_v(name@, params_v(params@), ret@, strs_v(effects@))));
                }
            },
            _ => {},
        }
        i = i + 1;
    }
    proof {
        assert(iv.take(items@.len() as int) =~= iv);
    }
    out
}

pub open spec fn card_views(v: Seq<(String, Json)>) -> Seq<(Seq<char>, JsonV)> {
    Seq::new(v.len(), |i: int| (v[i].0@, v[i].1@))
}

/// `(file stem, card)` pairs: one per agent block (its name lowercased as
/// the stem), or, when there is none, one named `file_stem` for the
/// program's fns.
pub fn cards(items: &[Item], file_stem: &str) -> (r: Vec<(String, Json)>)
    ensures
        card_views(r@) == cards_v(items_v(items@), file_stem@),
{
    let ghost iv = items_v(items@);
    let mut out: Vec<(String, Json)> = Vec::new();
    let mut i: usize = 0;
    proof {
        assert(iv.take(0) =~= Seq::<ItemV>::empty());
        assert(card_views(out@) =~= Seq::<(Seq<char>, JsonV)>::empty());
    }
    while i < items.len()
        invariant
            i <= items@.len() == iv.len(),
            iv == items_v(items@),
            card_views(out@) == agent_cards(iv.take(i as int)),
        decreases items@.len() - i,
    {
        proof {
            assert(iv.take(i + 1).drop_last() =~= iv.take(i as int));
            assert(iv.take(i + 1).last() == items@[i as int]@);
        }
        let ghost before = card_views(out@);
        match &items[i] {
            Item::Agent { name, fns, .. } => {
                let skills = skills_of(fns.as_slice());
                proof {
                    assert(items_v(fns@) =~= items@[i as int]@->Agent_4);
                }
                let c = card(name.as_str(), skills);
                out.push((to_lowercase(name.as_str()), c));
                proof {
                    assert(card_views(out@) =~= before.push((lowercase(name@), card_v(name@, fn_skills(items_v(fns@))))));
                }
            },
            _ => {},
        }
        i = i + 1;
    }
    proof {
        assert(iv.take(items@.len() as int) =~= iv);
    }
    if out.len() == 0 {
        let skills = skills_of(items);
        let c = card(file_stem, skills);
        out.push((string_of(file_stem), c));
        proof {
            assert(card_views(out@) =~= seq![(file_stem@, card_v(file_stem@, fn_skills(iv)))]);
        }
    }
    out
}

} // verus!

verus! {

/// The number of agent blocks among `items`.
pub open spec fn n_agents(items: Seq<ItemV>) -> nat
    decreases items.len(),
{
    if items.len() == 0 {
        0
    } else {
        n_agents(items.drop_last()) + if items.last() is Agent {
            1nat
        } else {
            0nat
        }
    }
}

proof fn lemma_agent_cards_len(items: Seq<ItemV>)
    ensures
        agent_cards(items).len() == n_agents(items),
    decreases items.len(),
{
    if items.len() > 0 {
        lemma_agent_cards_len(items.drop_last());
    }
}

/// One card per agent block, or exactly one card when there is none.
pub proof fn law_one_card_per_agent(items: Seq<ItemV>, stem: Seq<char>)
    ensures
        cards_v(items, stem).len() == if n_agents(items) > 0 {
            n_agents(items)
        } else {
            1
        },
        n_agents(items) == 0 ==> cards_v(items, stem)[0].0 == stem,
{
    lemma_agent_cards_len(items);
}

} // verus!
