//! The state of a run, and how two reports of it are resolved.

use crate::music::roundtable::RoundTableConfig;
use crate::order;
use crate::roundtable::participant::RunEpoch;
use vstd::prelude::*;

verus! {

#[derive(Clone, Copy, PartialEq, Eq, Debug)]
pub struct RunState {
    pub epoch: RunEpoch,
    /// Total-ordered version of the configuration mirrored into this run.
    /// It may advance while `epoch` and the pulse sequence remain stable.
    pub config_version: RunEpoch,
    pub running: bool,
    /// Session copy of the durable settings, captured at start so the
    /// performance need not wait for a full history repair.
    pub config: RoundTableConfig,
}

impl RunState {
    /// Whether the configuration of `self` is superseded by that of `other`: by
    /// a later version, or by greater settings under the same version.
    pub open spec fn configured_before(self, other: RunState) -> bool {
        ||| order::before(self.config_version.key(), other.config_version.key())
        ||| self.config_version == other.config_version && order::before(
            self.config.key(),
            other.config.key(),
        )
    }

    /// What two reports of a run come to. The later epoch wins. Within one
    /// epoch the later configuration wins, and stop dominates start.
    pub open spec fn merged(self, other: RunState) -> RunState {
        if order::before(self.epoch.key(), other.epoch.key()) {
            other
        } else if self.epoch != other.epoch {
            self
        } else {
            let newer = if self.configured_before(other) {
                other
            } else {
                self
            };
            RunState {
                epoch: self.epoch,
                config_version: newer.config_version,
                running: self.running && other.running,
                config: newer.config,
            }
        }
    }
}

/// Resolve a received run state without clocks or arrival-order dependence.
///
/// A higher epoch always wins. Within one epoch, stop dominates start and
/// retains the configuration captured by the accepted start. Consequently, a
/// delayed start from the same or an older epoch cannot resurrect a stopped
/// performance.
pub fn resolve_run_state(current: Option<RunState>, incoming: RunState) -> (resolved: RunState)
    ensures
        resolved == match current {
            None => incoming,
            Some(current) => current.merged(incoming),
        },
{
    let current: RunState = match current {
        Some(current) => current,
        None => {
            return incoming;
        },
    };
    if current.epoch.precedes(&incoming.epoch) {
        return incoming;
    }
    if incoming.epoch != current.epoch {
        return current;
    }
    let superseded: bool = current.config_version.precedes(&incoming.config_version) || (
    current.config_version == incoming.config_version && current.config.precedes(incoming.config));
    let (config_version, config): (RunEpoch, RoundTableConfig) = if superseded {
        (incoming.config_version, incoming.config)
    } else {
        (current.config_version, current.config)
    };
    RunState {
        epoch: current.epoch,
        config_version,
        running: current.running && incoming.running,
        config,
    }
}

proof fn lemma_configuration_order(a: RunState, b: RunState)
    ensures
        !(a.configured_before(b) && b.configured_before(a)),
        a.configured_before(b) || b.configured_before(a) || a.config_version == b.config_version
            && a.config == b.config,
{
    let (u, v) = (a.config_version.key(), b.config_version.key());
    let (s, t) = (a.config.key(), b.config.key());
    order::lemma_total(u, v);
    order::lemma_total(s, t);
    order::lemma_irreflexive(u);
    order::lemma_irreflexive(s);
    if order::before(u, v) {
        order::lemma_asymmetric(u, v);
    }
    if order::before(v, u) {
        order::lemma_asymmetric(v, u);
    }
    if order::before(s, t) {
        order::lemma_asymmetric(s, t);
    }
    if u == v {
        RunEpoch::lemma_key_injective(a.config_version, b.config_version);
    }
    if s == t {
        RoundTableConfig::lemma_key_injective(a.config, b.config);
    }
}

proof fn lemma_configuration_transitive(a: RunState, b: RunState, c: RunState)
    requires
        a.configured_before(b),
        b.configured_before(c),
    ensures
        a.configured_before(c),
{
    let (u, v, w) = (a.config_version.key(), b.config_version.key(), c.config_version.key());
    if order::before(u, v) && order::before(v, w) {
        order::lemma_transitive(u, v, w);
    }
    if a.config_version == b.config_version && b.config_version == c.config_version {
        order::lemma_irreflexive(u);
        order::lemma_transitive(a.config.key(), b.config.key(), c.config.key());
    }
}

proof fn lemma_epoch_order(a: RunState, b: RunState)
    ensures
        !(order::before(a.epoch.key(), b.epoch.key()) && order::before(
            b.epoch.key(),
            a.epoch.key(),
        )),
        order::before(a.epoch.key(), b.epoch.key()) || order::before(
            b.epoch.key(),
            a.epoch.key(),
        ) || a.epoch == b.epoch,
        a.epoch == b.epoch ==> !order::before(a.epoch.key(), b.epoch.key()),
{
    let (u, v) = (a.epoch.key(), b.epoch.key());
    order::lemma_total(u, v);
    order::lemma_irreflexive(u);
    if order::before(u, v) {
        order::lemma_asymmetric(u, v);
    }
    if u == v {
        RunEpoch::lemma_key_injective(a.epoch, b.epoch);
    }
}

/// Two reports come to the same, whichever arrives first.
pub proof fn law_merge_is_commutative(a: RunState, b: RunState)
    ensures
        a.merged(b) == b.merged(a),
{
    lemma_epoch_order(a, b);
    lemma_configuration_order(a, b);
}

/// A report that arrives again changes nothing.
pub proof fn law_merge_is_idempotent(a: RunState, b: RunState)
    ensures
        a.merged(a) == a,
        a.merged(b).merged(b) == a.merged(b),
{
    lemma_epoch_order(a, b);
    lemma_epoch_order(a, a);
    lemma_epoch_order(b, b);
    lemma_configuration_order(a, b);
    lemma_configuration_order(a, a);
    lemma_configuration_order(b, b);
    let m = a.merged(b);
    lemma_epoch_order(m, b);
    lemma_configuration_order(m, b);
}

/// Three reports come to the same, however they are grouped. With the other two
/// laws, any set of reports comes to one state in every order of arrival.
pub proof fn law_merge_is_associative(a: RunState, b: RunState, c: RunState)
    ensures
        a.merged(b).merged(c) == a.merged(b.merged(c)),
{
    lemma_epoch_order(a, b);
    lemma_epoch_order(b, c);
    lemma_epoch_order(a, c);
    lemma_configuration_order(a, b);
    lemma_configuration_order(b, c);
    lemma_configuration_order(a, c);
    if order::before(a.epoch.key(), b.epoch.key()) && order::before(b.epoch.key(), c.epoch.key()) {
        order::lemma_transitive(a.epoch.key(), b.epoch.key(), c.epoch.key());
    }
    if order::before(c.epoch.key(), b.epoch.key()) && order::before(b.epoch.key(), a.epoch.key()) {
        order::lemma_transitive(c.epoch.key(), b.epoch.key(), a.epoch.key());
    }
    if a.configured_before(b) && b.configured_before(c) {
        lemma_configuration_transitive(a, b, c);
    }
    if c.configured_before(b) && b.configured_before(a) {
        lemma_configuration_transitive(c, b, a);
    }
    let (m, n) = (a.merged(b), b.merged(c));
    lemma_epoch_order(m, c);
    lemma_epoch_order(a, n);
    lemma_configuration_order(m, c);
    lemma_configuration_order(a, n);
}

/// A stopped run stays stopped: no report of the same or an older epoch starts
/// it again.
pub proof fn law_stop_dominates(current: RunState, incoming: RunState)
    requires
        !current.running,
        !order::before(current.epoch.key(), incoming.epoch.key()),
    ensures
        !current.merged(incoming).running,
        current.merged(incoming).epoch == current.epoch,
{
}

/// A change of configuration neither starts nor ends a run, nor moves it to
/// another epoch.
pub proof fn law_configuration_update_keeps_the_run(current: RunState, incoming: RunState)
    requires
        current.epoch == incoming.epoch,
        incoming.running,
    ensures
        current.merged(incoming).epoch == current.epoch,
        current.merged(incoming).running == current.running,
{
    lemma_epoch_order(current, incoming);
}

/// Of two runs the one with the larger nonce is the one that is meant, whole. Within
/// one epoch a run goes on only where both reports say so, and its settings are those
/// of the larger version, or under one version the greater ones.
pub proof fn law_later_reports_win(current: RunState, incoming: RunState)
    ensures
        current.epoch.nonce < incoming.epoch.nonce ==> current.merged(incoming) == incoming,
        current.epoch.nonce > incoming.epoch.nonce ==> current.merged(incoming) == current,
        current.epoch.nonce == incoming.epoch.nonce && order::before(
            order::byte_key(current.epoch.origin@),
            order::byte_key(incoming.epoch.origin@),
        ) ==> current.merged(incoming) == incoming,
        current.epoch.nonce == incoming.epoch.nonce && order::before(
            order::byte_key(incoming.epoch.origin@),
            order::byte_key(current.epoch.origin@),
        ) ==> current.merged(incoming) == current,
        current.epoch == incoming.epoch ==> {
            let merged = current.merged(incoming);
            &&& merged.epoch == current.epoch
            &&& merged.running <==> current.running && incoming.running
            &&& current.config_version.nonce < incoming.config_version.nonce
                ==> merged.config_version == incoming.config_version && merged.config
                == incoming.config
            &&& current.config_version.nonce > incoming.config_version.nonce
                ==> merged.config_version == current.config_version && merged.config
                == current.config
            &&& current.config_version == incoming.config_version ==> {
                &&& merged.config_version == current.config_version
                &&& order::before(current.config.key(), incoming.config.key()) ==> merged.config
                    == incoming.config
                &&& order::before(incoming.config.key(), current.config.key()) ==> merged.config
                    == current.config
            }
        },
{
    lemma_epoch_order(current, incoming);
    lemma_configuration_order(current, incoming);
    crate::roundtable::participant::law_epochs_are_ordered_by_nonce(current.epoch, incoming.epoch);
    crate::roundtable::participant::law_epochs_are_ordered_by_nonce(incoming.epoch, current.epoch);
    crate::roundtable::participant::law_epochs_are_ordered_by_nonce(
        current.config_version,
        incoming.config_version,
    );
    crate::roundtable::participant::law_epochs_are_ordered_by_nonce(
        incoming.config_version,
        current.config_version,
    );
    order::lemma_irreflexive(current.config_version.key());
    if order::before(incoming.config.key(), current.config.key()) {
        order::lemma_asymmetric(incoming.config.key(), current.config.key());
    }
}

} // verus!
