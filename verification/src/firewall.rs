//! The firewall's verified state: the rule tracker with its compiled
//! LPM table, the source classifier with its source table, and the
//! default-action configuration, with the per-packet decision over them.
//!
//! Attaching the data plane to an interface and mirroring these tables
//! into the kernel is the embedding program's job; everything the
//! tables hold and everything the decision computes is decided here.
use vstd::prelude::*;
use crate::cidr::{Cidr, Contains, Ip, Normalize};
use crate::classifier::{Classifier, SourceStore};
use crate::config::ConfigHandler;
use crate::dataplane::{decide, spec_decide};
use crate::error::FirewallError;
use crate::lpm::LpmStore;
use crate::rule::Rule;
use crate::rule_store::{Action, RuleStore};
use crate::tracker::{RuleTracker, PortRangeRecord, add_fits, add_rec, cur_mem, inherited, r_affected, r_empties, remove_fits, tr_index_of};

verus! {

/// The complete control- and data-plane state.
pub struct Firewall {
    rule_tracker: RuleTracker,
    rule_map: LpmStore,
    classifier: Classifier,
    source_map: SourceStore,
    config: ConfigHandler,
}

impl Firewall {
    pub closed spec fn spec_tracker(&self) -> RuleTracker {
        self.rule_tracker
    }

    pub closed spec fn spec_rule_map(&self) -> LpmStore {
        self.rule_map
    }

    pub closed spec fn spec_classifier(&self) -> Classifier {
        self.classifier
    }

    pub closed spec fn spec_source_map(&self) -> SourceStore {
        self.source_map
    }

    pub closed spec fn spec_config(&self) -> ConfigHandler {
        self.config
    }

    /// Every component invariant at once.
    pub open spec fn wf(&self) -> bool {
        &&& self.spec_tracker().inv(&self.spec_rule_map())
        &&& self.spec_classifier().wf()
        &&& self.spec_source_map().wf()
    }

    /// A firewall with no rules, no groups, and the default verdict.
    pub fn new() -> (r: Firewall)
        ensures
            r.wf(),
            r.spec_tracker().entries() =~= Seq::<crate::tracker::RuleEntry>::empty(),
            r.spec_rule_map().entries() =~= Seq::<crate::lpm::LpmEntry>::empty(),
            r.spec_config().spec_default_action() == Action::Reject,
            r.spec_source_map().entries() =~= Seq::<(Ip, u128)>::empty(),
            r.spec_classifier().groups() =~= Seq::<crate::classifier::Group>::empty(),
    {
        let config = ConfigHandler::fresh();
        Firewall {
            rule_tracker: RuleTracker::new(),
            rule_map: LpmStore::new(),
            classifier: Classifier::new(),
            source_map: SourceStore::new(),
            config,
        }
    }

    /// Picks the verdict for packets that match no rule.
    pub fn set_default_action(&mut self, action: Action)
        requires
            old(self).wf(),
        ensures
            final(self).wf(),
            final(self).spec_config().spec_default_action() == action,
            final(self).spec_tracker() == old(self).spec_tracker(),
            final(self).spec_rule_map() == old(self).spec_rule_map(),
            final(self).spec_classifier() == old(self).spec_classifier(),
            final(self).spec_source_map() == old(self).spec_source_map(),
    {
        self.config.set_default_action(action);
    }

    /// Adds a rule, compiling it into the rule table with full
    /// inheritance; nothing changes if any touched key would overflow.
    /// On success the rule's record sits at its key and at every
    /// contained key, with everything broader keys contribute.
    pub fn add_rule(&mut self, rule: &Rule) -> (r: Result<(), FirewallError>)
        requires
            old(self).wf(),
            rule.dest.wf(),
        ensures
            final(self).wf(),
            !rule.spec_valid_range() ==> r == Err::<(), FirewallError>(FirewallError::InvalidPort),
            r is Err ==> final(self).spec_tracker().entries() == old(self).spec_tracker().entries()
                && final(self).spec_rule_map().entries() == old(self).spec_rule_map().entries(),
            rule.spec_valid_range() ==> ((r is Ok) <==> (forall|p: u8|
                #[trigger] rule.spec_has_proto(p) ==> add_fits(
                    old(self).spec_tracker().entries(),
                    rule.spec_gid(),
                    p,
                    rule.dest.norm_spec(),
                    add_rec(rule),
                ))),
            // on success the rule's key exists under each protocol it
            // unfolds to, and no other key appears
            r is Ok ==> forall|id2: u128, p2: u8, c2: Cidr|
                ((#[trigger] tr_index_of(final(self).spec_tracker().entries(), id2, p2, c2)) >= 0)
                    == ((tr_index_of(old(self).spec_tracker().entries(), id2, p2, c2) >= 0) || (
                rule.spec_has_proto(p2) && id2 == rule.spec_gid() && c2
                    == rule.dest.norm_spec())),
            // on success each key holds what it held, plus the rule's
            // record at its own key and at every contained key, plus
            // everything its own key inherits from broader keys
            r is Ok ==> forall|id2: u128, p2: u8, c2: Cidr, x: PortRangeRecord|
                #[trigger] cur_mem(final(self).spec_tracker().entries(), id2, p2, c2, x) == (
                cur_mem(old(self).spec_tracker().entries(), id2, p2, c2, x) || (
                rule.spec_has_proto(p2) && id2 == rule.spec_gid() && x == add_rec(rule) && (c2
                    == rule.dest.norm_spec() || (tr_index_of(
                    old(self).spec_tracker().entries(),
                    id2,
                    p2,
                    c2,
                ) >= 0 && rule.dest.norm_spec().contains_spec(&c2)))) || (rule.spec_has_proto(p2)
                    && id2 == rule.spec_gid() && c2 == rule.dest.norm_spec() && inherited(
                    old(self).spec_tracker().entries(),
                    rule.spec_gid(),
                    p2,
                    rule.dest.norm_spec(),
                    x,
                ))),
            final(self).spec_classifier() == old(self).spec_classifier(),
            final(self).spec_source_map() == old(self).spec_source_map(),
            final(self).spec_config() == old(self).spec_config(),
    {
        self.rule_tracker.add_rule(&mut self.rule_map, rule)
    }

    /// Removes a rule and every copy inheritance spread, dropping keys
    /// that end up empty; nothing changes if any shrunk key would
    /// overflow.
    pub fn remove_rule(&mut self, rule: &Rule) -> (r: Result<(), FirewallError>)
        requires
            old(self).wf(),
            rule.dest.wf(),
        ensures
            final(self).wf(),
            r is Err ==> final(self).spec_tracker().entries() == old(self).spec_tracker().entries()
                && final(self).spec_rule_map().entries() == old(self).spec_rule_map().entries(),
            (r is Ok) <==> (forall|p: u8|
                #[trigger] rule.spec_has_proto(p) ==> remove_fits(
                    old(self).spec_tracker().entries(),
                    rule.spec_gid(),
                    p,
                    rule.dest.norm_spec(),
                    add_rec(rule),
                )),
            // on success a key survives unless withdrawing the record
            // empties it
            r is Ok ==> forall|id2: u128, p2: u8, c2: Cidr|
                ((#[trigger] tr_index_of(final(self).spec_tracker().entries(), id2, p2, c2)) >= 0)
                    == ({
                    let pk = tr_index_of(old(self).spec_tracker().entries(), id2, p2, c2);
                    pk >= 0 && !(rule.spec_has_proto(p2) && r_affected(
                        &old(self).spec_tracker().entries()[pk],
                        rule.spec_gid(),
                        p2,
                        rule.dest.norm_spec(),
                        add_rec(rule),
                    ) && r_empties(&old(self).spec_tracker().entries()[pk], add_rec(rule)))
                }),
            // on success the record leaves its key and every propagated
            // copy; every other record of every key stays
            r is Ok ==> forall|id2: u128, p2: u8, c2: Cidr, x: PortRangeRecord|
                #[trigger] cur_mem(final(self).spec_tracker().entries(), id2, p2, c2, x) == ({
                    let pk = tr_index_of(old(self).spec_tracker().entries(), id2, p2, c2);
                    pk >= 0 && old(self).spec_tracker().entries()[pk].records@.contains(x) && !(x
                        == add_rec(rule) && rule.spec_has_proto(p2) && r_affected(
                        &old(self).spec_tracker().entries()[pk],
                        rule.spec_gid(),
                        p2,
                        rule.dest.norm_spec(),
                        add_rec(rule),
                    ))
                }),
            final(self).spec_classifier() == old(self).spec_classifier(),
            final(self).spec_source_map() == old(self).spec_source_map(),
            final(self).spec_config() == old(self).spec_config(),
    {
        self.rule_tracker.remove_rule(&mut self.rule_map, rule)
    }

    /// Assigns a source address to a group; the data plane's source
    /// table maps the address to the id from then on.
    pub fn add_id(&mut self, ip: Ip, id: u128) -> (r: Result<(), FirewallError>)
        requires
            old(self).wf(),
        ensures
            final(self).wf(),
            id == 0 ==> r == Err::<(), FirewallError>(FirewallError::InvalidId)
                && final(self).spec_source_map().entries() == old(self).spec_source_map().entries(),
            id != 0 ==> r == Ok::<(), FirewallError>(()),
            id != 0 ==> forall|x: Ip|
                #[trigger] final(self).spec_source_map().spec_get(x) == if x == ip {
                    Some(id)
                } else {
                    old(self).spec_source_map().spec_get(x)
                },
            id == 0 ==> final(self).spec_classifier().groups() == old(self).spec_classifier().groups(),
            // the address joins the group's set; every other group is
            // untouched
            id != 0 ==> final(self).spec_classifier().spec_has_group(id) && (forall|x: Ip|
                #[trigger] final(self).spec_classifier().spec_ips_of(id).contains(x) == (old(self).spec_classifier().spec_ips_of(id).contains(x) || x == ip)),
            id != 0 ==> forall|id2: u128|
                id2 != id ==> #[trigger] final(self).spec_classifier().spec_has_group(id2) == old(self).spec_classifier().spec_has_group(id2),
            id != 0 ==> forall|id2: u128|
                id2 != id ==> #[trigger] final(self).spec_classifier().spec_ips_of(id2) == old(self).spec_classifier().spec_ips_of(id2),
            final(self).spec_tracker() == old(self).spec_tracker(),
            final(self).spec_rule_map() == old(self).spec_rule_map(),
            final(self).spec_config() == old(self).spec_config(),
    {
        self.classifier.insert(&mut self.source_map, ip, id)
    }

    /// Drops one source address's group assignment.
    pub fn remove_id(&mut self, ip: &Ip) -> (r: Result<(), FirewallError>)
        requires
            old(self).wf(),
        ensures
            final(self).wf(),
            old(self).spec_source_map().spec_get(*ip) is None ==> r == Err::<(), FirewallError>(
                FirewallError::NotFound,
            ) && final(self).spec_source_map().entries() == old(self).spec_source_map().entries(),
            old(self).spec_source_map().spec_get(*ip) is Some ==> r == Ok::<(), FirewallError>(())
                && (forall|x: Ip|
                #[trigger] final(self).spec_source_map().spec_get(x) == if x == *ip {
                    None::<u128>
                } else {
                    old(self).spec_source_map().spec_get(x)
                }),
            old(self).spec_source_map().spec_get(*ip) is None ==> final(self).spec_classifier().groups()
                == old(self).spec_classifier().groups(),
            // the address leaves its group; an emptied group is dropped;
            // every other group is untouched
            old(self).spec_source_map().spec_get(*ip) is Some ==> forall|x: Ip|
                #[trigger] final(self).spec_classifier().spec_ips_of(
                    old(self).spec_source_map().spec_get(*ip)->0,
                ).contains(x) == (old(self).spec_classifier().spec_ips_of(
                    old(self).spec_source_map().spec_get(*ip)->0,
                ).contains(x) && x != *ip),
            old(self).spec_source_map().spec_get(*ip) is Some
                ==> final(self).spec_classifier().spec_has_group(
                old(self).spec_source_map().spec_get(*ip)->0,
            ) == (
            exists|x: Ip|
                #[trigger] old(self).spec_classifier().spec_ips_of(
                    old(self).spec_source_map().spec_get(*ip)->0,
                ).contains(x) && x != *ip),
            old(self).spec_source_map().spec_get(*ip) is Some ==> forall|id2: u128|
                id2 != old(self).spec_source_map().spec_get(*ip)->0
                    ==> #[trigger] final(self).spec_classifier().spec_has_group(id2) == old(self).spec_classifier().spec_has_group(id2),
            old(self).spec_source_map().spec_get(*ip) is Some ==> forall|id2: u128|
                id2 != old(self).spec_source_map().spec_get(*ip)->0
                    ==> #[trigger] final(self).spec_classifier().spec_ips_of(id2) == old(self).spec_classifier().spec_ips_of(id2),
            final(self).spec_tracker() == old(self).spec_tracker(),
            final(self).spec_rule_map() == old(self).spec_rule_map(),
            final(self).spec_config() == old(self).spec_config(),
    {
        self.classifier.remove(&mut self.source_map, ip)
    }

    /// Unassigns a whole group: exactly its addresses leave the source
    /// table.
    pub fn remove_by_id(&mut self, id: u128) -> (r: Result<(), FirewallError>)
        requires
            old(self).wf(),
        ensures
            final(self).wf(),
            !old(self).spec_classifier().spec_has_group(id) ==> r == Err::<(), FirewallError>(
                FirewallError::NotExistingId,
            ) && final(self).spec_source_map().entries() == old(self).spec_source_map().entries(),
            old(self).spec_classifier().spec_has_group(id) ==> r == Ok::<(), FirewallError>(())
                && (forall|x: Ip|
                #[trigger] final(self).spec_source_map().spec_get(x) == if old(self).spec_classifier().spec_ips_of(id).contains(x) {
                    None::<u128>
                } else {
                    old(self).spec_source_map().spec_get(x)
                }) && !final(self).spec_classifier().spec_has_group(id),
            !old(self).spec_classifier().spec_has_group(id) ==> final(self).spec_classifier().groups()
                == old(self).spec_classifier().groups(),
            // every other group is untouched
            old(self).spec_classifier().spec_has_group(id) ==> forall|id2: u128|
                id2 != id ==> #[trigger] final(self).spec_classifier().spec_has_group(id2) == old(self).spec_classifier().spec_has_group(id2),
            old(self).spec_classifier().spec_has_group(id) ==> forall|id2: u128|
                id2 != id ==> #[trigger] final(self).spec_classifier().spec_ips_of(id2) == old(self).spec_classifier().spec_ips_of(id2),
            final(self).spec_tracker() == old(self).spec_tracker(),
            final(self).spec_rule_map() == old(self).spec_rule_map(),
            final(self).spec_config() == old(self).spec_config(),
    {
        self.classifier.remove_by_id(&mut self.source_map, id)
    }

    /// Decides one packet exactly as the data plane does.
    pub fn check_packet(&self, src: &Ip, dst: &Ip, proto: u8, port: u16) -> (r: Action)
        requires
            self.wf(),
        ensures
            r == spec_decide(
                &self.spec_rule_map(),
                &self.spec_source_map(),
                &self.spec_config(),
                *src,
                *dst,
                proto,
                port,
            ),
    {
        decide(&self.rule_map, &self.source_map, &self.config, src, dst, proto, port)
    }

    /// The compiled store the rule table holds under an exact key.
    pub fn compiled_store(&self, id: u128, proto: u8, cidr: &Cidr) -> (r: Option<RuleStore>)
        ensures
            r == self.spec_rule_map().spec_get(id, proto, *cidr),
    {
        self.rule_map.get(id, proto, cidr)
    }

    /// Every compiled rule row, for mirroring into the kernel map.
    pub fn export_rules(&self) -> (r: Vec<(u128, u8, Cidr, RuleStore)>)
        ensures
            r@.len() == self.spec_rule_map().entries().len(),
            forall|i: int|
                0 <= i < r@.len() ==> (#[trigger] r@[i]).0 == self.spec_rule_map().entries()[i].id
                    && r@[i].1 == self.spec_rule_map().entries()[i].proto && r@[i].2
                    == self.spec_rule_map().entries()[i].cidr && r@[i].3
                    == self.spec_rule_map().entries()[i].store,
    {
        self.rule_map.export()
    }

    /// Every source assignment, for mirroring into the kernel map.
    pub fn export_sources(&self) -> (r: Vec<(Ip, u128)>)
        ensures
            r@ == self.spec_source_map().entries(),
    {
        self.source_map.export()
    }

    /// The addresses currently assigned to a group id.
    pub fn ips_of(&self, id: u128) -> (r: Option<Vec<Ip>>)
        ensures
            match r {
                Some(v) => self.spec_classifier().spec_has_group(id) && v@ == self.spec_classifier().spec_ips_of(id),
                None => !self.spec_classifier().spec_has_group(id),
            },
    {
        self.classifier.ips_of(id)
    }
}

} // verus!
