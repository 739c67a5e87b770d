use vstd::prelude::*;
use crate::jml::PatternRecord;

verus! {

impl PatternRecord {
    /// The record of the three-ball cascade: a siteswap named `3 cascade` with setting
    /// `pattern=3`, nothing else.
    pub open spec fn cascade_model() -> crate::jml::RecordModel {
        crate::jml::RecordModel {
            display: "3 cascade"@,
            notation: Some("siteswap"@),
            config: Some("pattern=3"@),
            animprefs: None,
            info: None,
            tags: Seq::empty(),
            raw_pattern: None,
        }
    }
}

/// The records of the built-in pattern files, followed by the three-ball cascade when none
/// of them can be played. No pattern file is built in, so the list is the cascade alone.
pub fn builtin_records() -> (r: Vec<PatternRecord>)
    ensures
        r.len() == 1,
        r@[0].display@ == "3 cascade"@,
        r@[0].notation matches Some(n) && n@ == "siteswap"@,
        r@[0].config matches Some(c) && c@ == "pattern=3"@,
        r@[0].is_playable_spec(),
        r@[0].animprefs is None,
        r@[0].info is None,
        r@[0].tags.len() == 0,
        r@[0].raw_pattern is None,
        r@.map_values(|p: PatternRecord| p.model()) == seq![PatternRecord::cascade_model()],
{
    let mut records: Vec<PatternRecord> = Vec::new();
    let mut any_playable = false;
    let mut i: usize = 0;
    while i < records.len()
        invariant
            i <= records.len(),
            records.len() == 0,
            !any_playable,
        decreases records.len() - i,
    {
        if records[i].is_playable() {
            any_playable = true;
        }
        i = i + 1;
    }
    if !any_playable {
        records.push(PatternRecord::siteswap("3 cascade", "pattern=3"));
    }
    proof {
        assert(records.len() == 1);
        assert(records@[0].model().tags =~= Seq::<Seq<char>>::empty());
        assert(records@[0].model() == PatternRecord::cascade_model());
        assert(records@.map_values(|p: PatternRecord| p.model()) =~= seq![PatternRecord::cascade_model()]);
    }
    records
}

} // verus!
