//! While the home jump gate is being built, trade is steered to its supply chain:
//! the chain's goods may only be sold to the markets that make the next link, they
//! are bought for flow rather than price, and the fabricators' iron intake is capped.
use vstd::prelude::*;
use vstd::string::StringExecFns;
use crate::models::{MarketEntry, contains_str, has_str};
use crate::tasks::{ConstructionPolicy, strs_view};

verus! {

/// Default trade volume at which a fabricator only takes iron at `Limited` supply.
pub const FABRICATOR_IRON_CAP: i64 = 120;

/// One material of a construction site.
#[derive(Clone, Debug)]
pub struct ConstructionMaterial {
    pub trade_symbol: String,
    pub required: i64,
    pub fulfilled: i64,
}

/// The first listing of `g` among the materials is not yet fulfilled.
pub open spec fn material_incomplete(materials: Seq<ConstructionMaterial>, g: Seq<char>) -> bool
    decreases materials.len(),
{
    if materials.len() == 0 {
        false
    } else if materials[0].trade_symbol@ == g {
        materials[0].fulfilled < materials[0].required
    } else {
        material_incomplete(materials.drop_first(), g)
    }
}

/// Market `m` imports every good of `imports` and exports every good of `exports`.
pub open spec fn serves(m: MarketEntry, imports: Seq<Seq<char>>, exports: Seq<Seq<char>>) -> bool {
    &&& forall|i: int| 0 <= i < imports.len() ==> has_str(m.imports@, #[trigger] imports[i])
    &&& forall|i: int| 0 <= i < exports.len() ==> has_str(m.exports@, #[trigger] exports[i])
}

/// The symbols of the markets that serve the given imports and exports, in order.
pub open spec fn markets_serving(markets: Seq<MarketEntry>, imports: Seq<Seq<char>>, exports: Seq<Seq<char>>) -> Seq<Seq<char>>
    decreases markets.len(),
{
    if markets.len() == 0 {
        Seq::empty()
    } else {
        let prev = markets_serving(markets.drop_last(), imports, exports);
        if serves(markets.last(), imports, exports) { prev.push(markets.last().symbol@) } else { prev }
    }
}

pub open spec fn fab_mat_markets(markets: Seq<MarketEntry>) -> Seq<Seq<char>> {
    markets_serving(markets, seq!["QUARTZ_SAND"@, "IRON"@], seq!["FAB_MATS"@])
}

pub open spec fn smeltery_markets(markets: Seq<MarketEntry>) -> Seq<Seq<char>> {
    markets_serving(markets, seq!["IRON_ORE"@, "COPPER_ORE"@], seq!["IRON"@, "COPPER"@])
}

pub open spec fn adv_circuit_markets(markets: Seq<MarketEntry>) -> Seq<Seq<char>> {
    markets_serving(markets, seq!["ELECTRONICS"@, "MICROPROCESSORS"@], seq!["ADVANCED_CIRCUITRY"@])
}

pub open spec fn electronics_markets(markets: Seq<MarketEntry>) -> Seq<Seq<char>> {
    markets_serving(markets, seq!["SILICON_CRYSTALS"@, "COPPER"@], seq!["ELECTRONICS"@])
}

pub open spec fn microprocessor_markets(markets: Seq<MarketEntry>) -> Seq<Seq<char>> {
    markets_serving(markets, seq!["SILICON_CRYSTALS"@, "COPPER"@], seq!["MICROPROCESSORS"@])
}

/// The sell permits of the policy as plain values.
pub open spec fn permits_view(p: Seq<(String, Vec<String>)>) -> Seq<(Seq<char>, Seq<Seq<char>>)> {
    p.map_values(|e: (String, Vec<String>)| (e.0@, strs_view(e.1@)))
}

/// The import caps of the policy as plain values.
pub open spec fn caps_view(c: Seq<(String, String, i64)>) -> Seq<(Seq<char>, Seq<char>, int)> {
    c.map_values(|e: (String, String, i64)| (e.0@, e.1@, e.2 as int))
}

pub open spec fn expected_permits(fab: bool, adv: bool, markets: Seq<MarketEntry>) -> Seq<(Seq<char>, Seq<Seq<char>>)> {
    let fab_part = if fab {
        seq![
            ("FAB_MATS"@, Seq::<Seq<char>>::empty()),
            ("IRON"@, fab_mat_markets(markets)),
            ("QUARTZ_SAND"@, fab_mat_markets(markets)),
            ("IRON_ORE"@, smeltery_markets(markets)),
        ]
    } else {
        Seq::empty()
    };
    let adv_part = if adv {
        seq![
            ("ADVANCED_CIRCUITRY"@, Seq::<Seq<char>>::empty()),
            ("ELECTRONICS"@, adv_circuit_markets(markets)),
            ("MICROPROCESSORS"@, adv_circuit_markets(markets)),
            ("SILICON_CRYSTALS"@, electronics_markets(markets) + microprocessor_markets(markets)),
            ("COPPER"@, electronics_markets(markets) + microprocessor_markets(markets)),
            ("COPPER_ORE"@, smeltery_markets(markets)),
        ]
    } else {
        Seq::empty()
    };
    fab_part + adv_part
}

pub open spec fn expected_constant_flow(fab: bool, adv: bool) -> Seq<Seq<char>> {
    let fab_part = if fab { seq!["IRON_ORE"@, "QUARTZ_SAND"@, "IRON"@] } else { Seq::empty() };
    let adv_part = if adv {
        seq!["ELECTRONICS"@, "MICROPROCESSORS"@, "SILICON_CRYSTALS"@, "COPPER"@, "COPPER_ORE"@]
    } else {
        Seq::empty()
    };
    fab_part + adv_part
}

pub open spec fn expected_caps(fab: bool, markets: Seq<MarketEntry>, iron_cap: int) -> Seq<(Seq<char>, Seq<char>, int)> {
    if fab {
        fab_mat_markets(markets).map_values(|m: Seq<char>| (m, "IRON"@, iron_cap))
    } else {
        Seq::empty()
    }
}

/// Whether the first listing of `g` among the materials is not yet fulfilled.
fn is_material_incomplete(materials: &Vec<ConstructionMaterial>, g: &String) -> (r: bool)
    ensures
        r == material_incomplete(materials@, g@),
{
    let mut i: usize = 0;
    proof {
        assert(materials@.skip(0) =~= materials@);
    }
    while i < materials.len()
        invariant
            i <= materials@.len(),
            material_incomplete(materials@, g@) == material_incomplete(materials@.skip(i as int), g@),
        decreases materials@.len() - i,
    {
        proof {
            assert(materials@.skip(i as int).drop_first() =~= materials@.skip(i + 1));
            assert(materials@.skip(i as int)[0] == materials@[i as int]);
        }
        if materials[i].trade_symbol == *g {
            return materials[i].fulfilled < materials[i].required;
        }
        i += 1;
    }
    false
}

fn trades_all(list: &Vec<String>, goods: &Vec<String>) -> (r: bool)
    ensures
        r == forall|i: int| 0 <= i < goods@.len() ==> has_str(list@, #[trigger] strs_view(goods@)[i]),
{
    let mut i: usize = 0;
    while i < goods.len()
        invariant
            i <= goods@.len(),
            forall|k: int| 0 <= k < i ==> has_str(list@, #[trigger] strs_view(goods@)[k]),
        decreases goods@.len() - i,
    {
        proof {
            assert(strs_view(goods@)[i as int] == goods@[i as int]@);
        }
        if !contains_str(list, &goods[i]) {
            return false;
        }
        i += 1;
    }
    true
}

/// The symbols of the markets that import all of `imports` and export all of `exports`.
pub fn find_markets(markets: &Vec<MarketEntry>, imports: &Vec<String>, exports: &Vec<String>) -> (r: Vec<String>)
    ensures
        strs_view(r@) == markets_serving(markets@, strs_view(imports@), strs_view(exports@)),
{
    let mut r: Vec<String> = Vec::new();
    let mut i: usize = 0;
    while i < markets.len()
        invariant
            i <= markets@.len(),
            strs_view(r@) == markets_serving(markets@.take(i as int), strs_view(imports@), strs_view(exports@)),
        decreases markets@.len() - i,
    {
        proof {
            assert(markets@.take(i + 1).drop_last() =~= markets@.take(i as int));
            assert(markets@.take(i + 1).last() == markets@[i as int]);
        }
        if trades_all(&markets[i].imports, imports) && trades_all(&markets[i].exports, exports) {
            r.push(markets[i].symbol.clone());
            proof {
                assert(strs_view(r@) =~= strs_view(r@.drop_last()).push(markets@[i as int].symbol@));
                assert(r@.drop_last() =~= r@.drop_last());
            }
        }
        i += 1;
    }
    proof {
        assert(markets@.take(markets@.len() as int) =~= markets@);
    }
    r
}

fn s(lit: &str) -> (r: String)
    ensures
        r@ == lit@,
{
    String::from_str(lit)
}

fn one(a: &str) -> (r: Vec<String>)
    ensures
        strs_view(r@) == seq![a@],
{
    let r = vec![String::from_str(a)];
    proof {
        assert(strs_view(r@) =~= seq![a@]);
    }
    r
}

fn two(a: &str, b: &str) -> (r: Vec<String>)
    ensures
        strs_view(r@) == seq![a@, b@],
{
    let r = vec![String::from_str(a), String::from_str(b)];
    proof {
        assert(strs_view(r@) =~= seq![a@, b@]);
    }
    r
}

fn copy_strs(v: &Vec<String>) -> (r: Vec<String>)
    ensures
        strs_view(r@) == strs_view(v@),
{
    let mut r: Vec<String> = Vec::new();
    let mut i: usize = 0;
    while i < v.len()
        invariant
            i <= v@.len(),
            r@.len() == i,
            strs_view(r@) == strs_view(v@).take(i as int),
        decreases v@.len() - i,
    {
        let ghost before = r@;
        r.push(v[i].clone());
        proof {
            assert(r@[i as int]@ == v@[i as int]@);
            assert(strs_view(r@) =~= strs_view(before).push(v@[i as int]@));
            assert(strs_view(r@) =~= strs_view(v@).take(i + 1));
        }
        i += 1;
    }
    proof {
        assert(strs_view(v@).take(v@.len() as int) =~= strs_view(v@));
    }
    r
}

fn concat_strs(a: &Vec<String>, b: &Vec<String>) -> (r: Vec<String>)
    ensures
        strs_view(r@) == strs_view(a@) + strs_view(b@),
{
    let mut r = copy_strs(a);
    let mut i: usize = 0;
    while i < b.len()
        invariant
            i <= b@.len(),
            strs_view(r@) == strs_view(a@) + strs_view(b@).take(i as int),
        decreases b@.len() - i,
    {
        let ghost before = r@;
        r.push(b[i].clone());
        proof {
            assert(strs_view(r@) =~= strs_view(before).push(b@[i as int]@));
            assert(strs_view(r@) =~= strs_view(a@) + strs_view(b@).take(i + 1));
        }
        i += 1;
    }
    proof {
        assert(strs_view(b@).take(b@.len() as int) =~= strs_view(b@));
    }
    r
}

fn push_permit(v: &mut Vec<(String, Vec<String>)>, g: &str, markets: Vec<String>)
    ensures
        permits_view(final(v)@) == permits_view(old(v)@).push((g@, strs_view(markets@))),
{
    let ghost before = v@;
    v.push((String::from_str(g), markets));
    proof {
        assert(permits_view(v@) =~= permits_view(before).push((g@, strs_view(markets@))));
    }
}

fn push_str(v: &mut Vec<String>, g: &str)
    ensures
        strs_view(final(v)@) == strs_view(old(v)@).push(g@),
{
    let ghost before = v@;
    v.push(String::from_str(g));
    proof {
        assert(strs_view(v@) =~= strs_view(before).push(g@));
    }
}

/// A construction site: its materials, and whether it is complete.
#[derive(Clone, Debug)]
pub struct ConstructionSite {
    pub materials: Vec<ConstructionMaterial>,
    pub is_complete: bool,
}

/// The trade policy while the jump gate `site` is built (no policy once it is
/// complete, when it is unknown, or in no-gate mode). For unfinished FAB_MATS, the
/// fabricators alone may buy IRON and QUARTZ_SAND and the smelteries alone IRON_ORE,
/// nobody may buy FAB_MATS, the three raw goods are bought for flow, and each
/// fabricator takes IRON only at `Limited` supply once its volume reaches `iron_cap`
/// (configurable; `FABRICATOR_IRON_CAP` by default). For unfinished
/// ADVANCED_CIRCUITRY, likewise along the electronics chain.
pub fn construction_policy(site: &Option<ConstructionSite>, no_gate_mode: bool, markets: &Vec<MarketEntry>, iron_cap: i64) -> (r: ConstructionPolicy)
    ensures
        ({
            let active = !no_gate_mode && site is Some && !site->0.is_complete;
            let fab = active && material_incomplete(site->0.materials@, "FAB_MATS"@);
            let adv = active && material_incomplete(site->0.materials@, "ADVANCED_CIRCUITRY"@);
            &&& permits_view(r.import_permits@) == expected_permits(fab, adv, markets@)
            &&& strs_view(r.constant_flow@) == expected_constant_flow(fab, adv)
            &&& caps_view(r.import_caps@) == expected_caps(fab, markets@, iron_cap as int)
        }),
{
    let mut permits: Vec<(String, Vec<String>)> = Vec::new();
    let mut flow: Vec<String> = Vec::new();
    let mut caps: Vec<(String, String, i64)> = Vec::new();
    proof {
        assert(permits_view(permits@) =~= Seq::empty());
        assert(strs_view(flow@) =~= Seq::empty());
        assert(caps_view(caps@) =~= Seq::empty());
    }
    let (fab, adv) = match site {
        Some(c) => {
            if no_gate_mode || c.is_complete {
                (false, false)
            } else {
                (
                    is_material_incomplete(&c.materials, &s("FAB_MATS")),
                    is_material_incomplete(&c.materials, &s("ADVANCED_CIRCUITRY")),
                )
            }
        },
        None => (false, false),
    };
    let smelteries = find_markets(markets, &two("IRON_ORE", "COPPER_ORE"), &two("IRON", "COPPER"));
    if fab {
        let fabricators = find_markets(markets, &two("QUARTZ_SAND", "IRON"), &one("FAB_MATS"));
        let none: Vec<String> = Vec::new();
        proof {
            assert(strs_view(none@) =~= Seq::<Seq<char>>::empty());
            assert(permits_view(permits@) =~= Seq::empty());
        }
        push_permit(&mut permits, "FAB_MATS", none);
        push_permit(&mut permits, "IRON", copy_strs(&fabricators));
        push_permit(&mut permits, "QUARTZ_SAND", copy_strs(&fabricators));
        push_permit(&mut permits, "IRON_ORE", copy_strs(&smelteries));
        proof {
            assert(permits_view(permits@) =~= seq![
                ("FAB_MATS"@, Seq::<Seq<char>>::empty()),
                ("IRON"@, fab_mat_markets(markets@)),
                ("QUARTZ_SAND"@, fab_mat_markets(markets@)),
                ("IRON_ORE"@, smeltery_markets(markets@)),
            ]);
        }
        push_str(&mut flow, "IRON_ORE");
        push_str(&mut flow, "QUARTZ_SAND");
        push_str(&mut flow, "IRON");
        let mut i: usize = 0;
        while i < fabricators.len()
            invariant
                i <= fabricators@.len(),
                caps_view(caps@) == strs_view(fabricators@).take(i as int).map_values(|m: Seq<char>| (m, "IRON"@, iron_cap as int)),
            decreases fabricators@.len() - i,
        {
            let ghost before = caps@;
            caps.push((fabricators[i].clone(), String::from_str("IRON"), iron_cap));
            proof {
                assert(caps_view(caps@) =~= caps_view(before).push((fabricators@[i as int]@, "IRON"@, iron_cap as int)));
                assert(caps_view(caps@) =~= strs_view(fabricators@).take(i + 1).map_values(|m: Seq<char>| (m, "IRON"@, iron_cap as int)));
            }
            i += 1;
        }
        proof {
            assert(strs_view(fabricators@).take(fabricators@.len() as int) =~= strs_view(fabricators@));
        }
    }
    if adv {
        let circuits = find_markets(markets, &two("ELECTRONICS", "MICROPROCESSORS"), &one("ADVANCED_CIRCUITRY"));
        let electronics = find_markets(markets, &two("SILICON_CRYSTALS", "COPPER"), &one("ELECTRONICS"));
        let microprocessors = find_markets(markets, &two("SILICON_CRYSTALS", "COPPER"), &one("MICROPROCESSORS"));
        let ghost before = permits_view(permits@);
        let none: Vec<String> = Vec::new();
        proof {
            assert(strs_view(none@) =~= Seq::<Seq<char>>::empty());
        }
        push_permit(&mut permits, "ADVANCED_CIRCUITRY", none);
        push_permit(&mut permits, "ELECTRONICS", copy_strs(&circuits));
        push_permit(&mut permits, "MICROPROCESSORS", copy_strs(&circuits));
        push_permit(&mut permits, "SILICON_CRYSTALS", concat_strs(&electronics, &microprocessors));
        push_permit(&mut permits, "COPPER", concat_strs(&electronics, &microprocessors));
        push_permit(&mut permits, "COPPER_ORE", copy_strs(&smelteries));
        proof {
            assert(permits_view(permits@) =~= before + seq![
                ("ADVANCED_CIRCUITRY"@, Seq::<Seq<char>>::empty()),
                ("ELECTRONICS"@, adv_circuit_markets(markets@)),
                ("MICROPROCESSORS"@, adv_circuit_markets(markets@)),
                ("SILICON_CRYSTALS"@, electronics_markets(markets@) + microprocessor_markets(markets@)),
                ("COPPER"@, electronics_markets(markets@) + microprocessor_markets(markets@)),
                ("COPPER_ORE"@, smeltery_markets(markets@)),
            ]);
        }
        push_str(&mut flow, "ELECTRONICS");
        push_str(&mut flow, "MICROPROCESSORS");
        push_str(&mut flow, "SILICON_CRYSTALS");
        push_str(&mut flow, "COPPER");
        push_str(&mut flow, "COPPER_ORE");
    }
    let r = ConstructionPolicy { import_permits: permits, constant_flow: flow, import_caps: caps };
    proof {
        let active = !no_gate_mode && site is Some && !site->0.is_complete;
        assert(fab == (active && material_incomplete(site->0.materials@, "FAB_MATS"@)));
        assert(permits_view(r.import_permits@) =~= expected_permits(fab, adv, markets@));
        assert(strs_view(r.constant_flow@) =~= expected_constant_flow(fab, adv));
        assert(caps_view(r.import_caps@) =~= expected_caps(fab, markets@, iron_cap as int));
    }
    r
}

} // verus!
