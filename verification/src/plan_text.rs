use vstd::prelude::*;
use crate::seqs::strings_view;
use crate::strs::{nat_digits, owned, str_eq, usize_to_string};
use crate::text::{join, join_strings};

verus! {

// ---------------------------------------------------------------------------
// Wording of a refactoring plan
// ---------------------------------------------------------------------------

/// The remarks on step `step` (0-based) of `total`: where it stands, what it
/// depends on, how many symbols wait for it, and its risk.
pub open spec fn reason_parts(
    step: nat,
    total: nat,
    depends_on: Seq<Seq<char>>,
    waiting: nat,
    risk: Seq<char>,
) -> Seq<Seq<char>> {
    let place: Seq<Seq<char>> = if step == 0 {
        seq!["Start here — no dependencies on other symbols in the set"@]
    } else if step + 1 == total {
        seq!["Last — everything else is already changed"@]
    } else {
        Seq::empty()
    };
    let deps: Seq<Seq<char>> = if depends_on.len() == 0 {
        seq!["leaf node — no outgoing dependencies"@]
    } else {
        seq!["depends on: "@ + join(depends_on, ", "@) + " (already changed)"@]
    };
    let downstream: Seq<Seq<char>> = if waiting > 0 {
        seq![nat_digits(waiting) + " downstream symbol(s) waiting"@]
    } else {
        Seq::empty()
    };
    let danger: Seq<Seq<char>> = if risk == "critical"@ {
        seq!["⚠ critical risk — extra caution needed"@]
    } else if risk == "high"@ {
        seq!["⚠ high risk — review all call sites"@]
    } else {
        Seq::empty()
    };
    place + deps + downstream + danger
}

/// Why a step comes where it does, as the remarks of [`reason_parts`] joined by `; `.
pub fn generate_step_reason(
    step: usize,
    total: usize,
    depends_on: &Vec<String>,
    depended_by: &Vec<String>,
    risk_level: &str,
) -> (r: String)
    requires
        step < total,
    ensures
        r@ == join(
            reason_parts(step as nat, total as nat, strings_view(depends_on@), depended_by@.len(), risk_level@),
            "; "@,
        ),
{
    let mut parts: Vec<String> = Vec::new();
    if step == 0 {
        parts.push(owned("Start here — no dependencies on other symbols in the set"));
    } else if step == total - 1 {
        parts.push(owned("Last — everything else is already changed"));
    }
    let ghost p1 = strings_view(parts@);
    if depends_on.len() == 0 {
        parts.push(owned("leaf node — no outgoing dependencies"));
    } else {
        let mut s = owned("depends on: ");
        let joined = join_strings(depends_on, ", ");
        s.append(joined.as_str());
        s.append(" (already changed)");
        assert(depends_on@.map_values(|s: String| s@) == strings_view(depends_on@));
        parts.push(s);
    }
    let ghost p2 = strings_view(parts@);
    if depended_by.len() > 0 {
        let mut s = usize_to_string(depended_by.len());
        s.append(" downstream symbol(s) waiting");
        parts.push(s);
    }
    let ghost p3 = strings_view(parts@);
    if str_eq(risk_level, "critical") {
        parts.push(owned("⚠ critical risk — extra caution needed"));
    } else if str_eq(risk_level, "high") {
        parts.push(owned("⚠ high risk — review all call sites"));
    }
    let r = join_strings(&parts, "; ");
    assert(parts@.map_values(|s: String| s@) == strings_view(parts@));
    assert(strings_view(parts@) =~= reason_parts(
        step as nat,
        total as nat,
        strings_view(depends_on@),
        depended_by@.len(),
        risk_level@,
    ));
    r
}

/// The remarks of a plan's summary: how many symbols are ordered, the cycles
/// found (`cycle_symbols` symbols in `cycles` cycles), and the highest risk.
pub open spec fn summary_parts(symbols: nat, cycles: nat, cycle_symbols: nat, has_cycles: bool, max_risk: nat) -> Seq<
    Seq<char>,
> {
    let head: Seq<Seq<char>> = seq![
        "Refactoring "@ + nat_digits(symbols) + " symbols in topological order"@,
    ];
    let cyc: Seq<Seq<char>> = if has_cycles {
        seq![
            "⚠ "@ + nat_digits(cycles) + " cycle(s) detected involving "@ + nat_digits(cycle_symbols)
                + " symbol(s) — break cycles before proceeding"@,
        ]
    } else {
        Seq::empty()
    };
    let risk: Seq<Seq<char>> = if max_risk >= 15 {
        seq!["⚠ Critical risk symbols detected — consider staged rollout"@]
    } else if max_risk >= 8 {
        seq!["High risk symbols present — review call sites carefully"@]
    } else {
        Seq::empty()
    };
    head + cyc + risk
}

/// The summary of a plan: the remarks of [`summary_parts`] joined by `. `.
pub fn generate_summary(symbols: usize, cycles: usize, cycle_symbols: usize, has_cycles: bool, max_risk: usize) -> (r:
    String)
    ensures
        r@ == join(
            summary_parts(symbols as nat, cycles as nat, cycle_symbols as nat, has_cycles, max_risk as nat),
            ". "@,
        ),
{
    let mut parts: Vec<String> = Vec::new();
    let mut s = owned("Refactoring ");
    s.append(usize_to_string(symbols).as_str());
    s.append(" symbols in topological order");
    parts.push(s);
    if has_cycles {
        let mut c = owned("⚠ ");
        c.append(usize_to_string(cycles).as_str());
        c.append(" cycle(s) detected involving ");
        c.append(usize_to_string(cycle_symbols).as_str());
        c.append(" symbol(s) — break cycles before proceeding");
        parts.push(c);
    }
    if max_risk >= 15 {
        parts.push(owned("⚠ Critical risk symbols detected — consider staged rollout"));
    } else if max_risk >= 8 {
        parts.push(owned("High risk symbols present — review call sites carefully"));
    }
    let r = join_strings(&parts, ". ");
    assert(parts@.map_values(|s: String| s@) == strings_view(parts@));
    assert(strings_view(parts@) =~= summary_parts(
        symbols as nat,
        cycles as nat,
        cycle_symbols as nat,
        has_cycles,
        max_risk as nat,
    ));
    r
}

/// The hint given for a cycle among `symbols`.
pub open spec fn cycle_hint_spec(symbols: Seq<Seq<char>>) -> Seq<char> {
    if symbols.len() == 2 {
        "Bidirectional dependency between "@ + symbols[0] + " and "@ + symbols[1]
            + " — extract shared interface to break cycle"@
    } else {
        "Circular dependency among "@ + nat_digits(symbols.len()) + " symbols — break at weakest link"@
    }
}

/// The hint given for a cycle among `symbols` (see [`cycle_hint_spec`]).
pub fn cycle_hint(symbols: &Vec<String>) -> (r: String)
    ensures
        r@ == cycle_hint_spec(strings_view(symbols@)),
{
    if symbols.len() == 2 {
        let mut s = owned("Bidirectional dependency between ");
        s.append(symbols[0].as_str());
        s.append(" and ");
        s.append(symbols[1].as_str());
        s.append(" — extract shared interface to break cycle");
        s
    } else {
        let mut s = owned("Circular dependency among ");
        s.append(usize_to_string(symbols.len()).as_str());
        s.append(" symbols — break at weakest link");
        s
    }
}

} // verus!
