//! How the command line overrides the configuration file.

use crate::config::{Cli, Config};
use crate::error::{ConfigError, Refusal};
use crate::path::optional_path;
use crate::text::optional_text;
use crate::validate::{Validation, ValidationModel, ZoneSourceModel};
use vstd::prelude::*;

verus! {

/// `over` if it is given, else `base`.
pub open spec fn either<T>(over: Option<T>, base: T) -> T {
    match over {
        Some(v) => v,
        None => base,
    }
}

impl Cli {
    /// Whether `after` is `before` with the options of the command line in place of the
    /// settings that they override. A zones file on the command line also puts zones in the
    /// configuration out of force.
    pub open spec fn overrides(&self, before: Config, after: Config) -> bool {
        &&& optional_path(after.files.zones) == if self.zones is Some {
            optional_path(self.zones)
        } else {
            optional_path(before.files.zones)
        }
        &&& after.zones == if self.zones is Some {
            None
        } else {
            before.zones
        }
        &&& optional_path(after.files.inbound) == if self.inbound is Some {
            optional_path(self.inbound)
        } else {
            optional_path(before.files.inbound)
        }
        &&& optional_path(after.files.outbound) == if self.outbound is Some {
            optional_path(self.outbound)
        } else {
            optional_path(before.files.outbound)
        }
        &&& after.nftables.table@ == either(optional_text(self.table), before.nftables.table@)
        &&& after.nftables.priority == either(self.priority, before.nftables.priority)
        &&& after.nftables.allow_flowtable_bypass == either(
            self.allow_flowtable_bypass,
            before.nftables.allow_flowtable_bypass,
        )
        &&& after.nftables.populate_batch_elements == either(
            self.populate_batch_elements,
            before.nftables.populate_batch_elements,
        )
        &&& after.nftables.batch_page_bytes == before.nftables.batch_page_bytes
        &&& after.nftables.cleanup_on_exit == before.nftables.cleanup_on_exit
        &&& after.runtime.debounce_ms == either(self.debounce_ms, before.runtime.debounce_ms)
        &&& after.runtime.reconcile_secs == either(
            self.reconcile_secs,
            before.runtime.reconcile_secs,
        )
        &&& after.xdp == before.xdp
        &&& after.tc == before.tc
        &&& after.rules == before.rules
    }
}

impl Config {
    /// Puts the options of the command line in place of the settings that they override.
    pub fn apply_overrides(&mut self, cli: &Cli)
        ensures
            cli.overrides(*old(self), *final(self)),
    {
        if let Some(v) = &cli.zones {
            self.files.zones = Some(v.clone());
            self.zones = None;
        }
        if let Some(v) = &cli.inbound {
            self.files.inbound = Some(v.clone());
        }
        if let Some(v) = &cli.outbound {
            self.files.outbound = Some(v.clone());
        }
        if let Some(v) = &cli.table {
            self.nftables.table = v.clone();
        }
        if let Some(v) = cli.priority {
            self.nftables.priority = v;
        }
        if let Some(v) = cli.debounce_ms {
            self.runtime.debounce_ms = v;
        }
        if let Some(v) = cli.reconcile_secs {
            self.runtime.reconcile_secs = v;
        }
        if let Some(v) = cli.allow_flowtable_bypass {
            self.nftables.allow_flowtable_bypass = v;
        }
        if let Some(v) = cli.populate_batch_elements {
            self.nftables.populate_batch_elements = v;
        }
    }

    /// The configuration that comes of `parsed`, what the configuration file holds, under the
    /// command line, with what is left to do for its validation.
    pub fn load(cli: &Cli, parsed: Config) -> (r: Result<(Config, Validation), ConfigError>)
        ensures
            match r {
                Ok((config, left)) => cli.overrides(parsed, config) && config.validation(
                    cli.cleanup is Some,
                ) == Ok::<_, Refusal>(left@),
                Err(e) => exists|config: Config| #[trigger]
                    cli.overrides(parsed, config) && config.validation(cli.cleanup is Some) == Err::<
                        ValidationModel,
                        _,
                    >(e@),
            },
            r matches Ok((config, Validation::Complete)) ==> config.validation(cli.cleanup is Some)
                == Ok::<_, Refusal>(ValidationModel::Complete),
            r matches Ok((config, Validation::ZonesFile(path))) ==> config.validation(
                cli.cleanup is Some,
            ) == Ok::<_, Refusal>(ValidationModel::ZonesFile(path.bytes@)),
    {
        let mut config = parsed;
        config.apply_overrides(cli);
        match config.validate(cli.cleanup.is_some()) {
            Ok(left) => Ok((config, left)),
            Err(e) => {
                assert(cli.overrides(parsed, config));
                Err(e)
            },
        }
    }
}

/// Each option of the command line takes the place of one setting, whatever the others are, and
/// without it that setting stays; a zones file also puts zones in the configuration out of force.
/// All other settings stay.
pub proof fn law_each_option_overrides_its_setting(cli: Cli, before: Config, after: Config)
    requires
        cli.overrides(before, after),
    ensures
        cli.zones matches Some(v) ==> (after.files.zones matches Some(w) && w.bytes@ == v.bytes@),
        cli.zones is None ==> match (before.files.zones, after.files.zones) {
            (Some(v), Some(w)) => w.bytes@ == v.bytes@,
            (None, None) => true,
            _ => false,
        },
        cli.zones is Some ==> after.zones is None,
        cli.zones is None ==> after.zones == before.zones,
        cli.inbound matches Some(v) ==> (after.files.inbound matches Some(w) && w.bytes@ == v.bytes@),
        cli.inbound is None ==> match (before.files.inbound, after.files.inbound) {
            (Some(v), Some(w)) => w.bytes@ == v.bytes@,
            (None, None) => true,
            _ => false,
        },
        cli.outbound matches Some(v) ==> (after.files.outbound matches Some(w) && w.bytes@ == v.bytes@),
        cli.outbound is None ==> match (before.files.outbound, after.files.outbound) {
            (Some(v), Some(w)) => w.bytes@ == v.bytes@,
            (None, None) => true,
            _ => false,
        },
        cli.table matches Some(v) ==> after.nftables.table@ == v@,
        cli.table is None ==> after.nftables.table@ == before.nftables.table@,
        cli.priority matches Some(v) ==> after.nftables.priority == v,
        cli.priority is None ==> after.nftables.priority == before.nftables.priority,
        cli.debounce_ms matches Some(v) ==> after.runtime.debounce_ms == v,
        cli.debounce_ms is None ==> after.runtime.debounce_ms == before.runtime.debounce_ms,
        cli.reconcile_secs matches Some(v) ==> after.runtime.reconcile_secs == v,
        cli.reconcile_secs is None ==> after.runtime.reconcile_secs == before.runtime.reconcile_secs,
        cli.allow_flowtable_bypass matches Some(v) ==> after.nftables.allow_flowtable_bypass == v,
        cli.allow_flowtable_bypass is None ==> after.nftables.allow_flowtable_bypass == before.nftables.allow_flowtable_bypass,
        cli.populate_batch_elements matches Some(v) ==> after.nftables.populate_batch_elements == v,
        cli.populate_batch_elements is None ==> after.nftables.populate_batch_elements == before.nftables.populate_batch_elements,
        after.nftables.batch_page_bytes == before.nftables.batch_page_bytes,
        after.nftables.cleanup_on_exit == before.nftables.cleanup_on_exit,
        after.xdp == before.xdp,
        after.tc == before.tc,
        after.rules == before.rules,
{
}

/// A zones file on the command line is where the zones come from, whatever the configuration
/// says of zones.
pub proof fn law_zones_option_wins(cli: Cli, before: Config, after: Config)
    requires
        cli.overrides(before, after),
        cli.zones is Some,
    ensures
        after.zone_source() == Ok::<_, Refusal>(ZoneSourceModel::File(cli.zones->0@)),
{
}

/// The options of the command line determine validation together with the configuration file:
/// any two configurations that come of the same ones are validated alike.
pub proof fn law_overrides_determine_validation(
    cli: Cli,
    before: Config,
    a: Config,
    b: Config,
    cleanup: bool,
)
    requires
        cli.overrides(before, a),
        cli.overrides(before, b),
    ensures
        a.validation(cleanup) == b.validation(cleanup),
{
    lemma_alike(a, b, cleanup);
}

/// Applying the options of the command line again changes nothing that validation sees.
pub proof fn law_overrides_are_idempotent(
    cli: Cli,
    before: Config,
    once: Config,
    twice: Config,
    cleanup: bool,
)
    requires
        cli.overrides(before, once),
        cli.overrides(once, twice),
    ensures
        cli.overrides(before, twice),
        twice.validation(cleanup) == once.validation(cleanup),
{
    lemma_alike(once, twice, cleanup);
}

/// Configurations that agree on all that validation sees are validated alike.
proof fn lemma_alike(a: Config, b: Config, cleanup: bool)
    requires
        optional_path(a.files.zones) == optional_path(b.files.zones),
        optional_path(a.files.inbound) == optional_path(b.files.inbound),
        optional_path(a.files.outbound) == optional_path(b.files.outbound),
        a.zones == b.zones,
        a.nftables.table@ == b.nftables.table@,
        a.nftables.batch_page_bytes == b.nftables.batch_page_bytes,
        a.nftables.populate_batch_elements == b.nftables.populate_batch_elements,
        a.runtime == b.runtime,
        a.xdp == b.xdp,
        a.tc == b.tc,
        a.rules == b.rules,
    ensures
        a.validation(cleanup) == b.validation(cleanup),
{
    assert forall|d: crate::config::Direction| a.refers_to(d) == b.refers_to(d) by {
        assert(a.xdp_refers_to(d) == b.xdp_refers_to(d));
        assert(a.tc_refers_to(d) == b.tc_refers_to(d));
    }
    if let Some(zones) = a.zones {
        let z = zones@;
        assert forall|i: int| a.meets_xdp(z, i) == b.meets_xdp(z, i) by {}
        assert forall|i: int| a.meets_tc(z, i) == b.meets_tc(z, i) by {}
        assert(a.xdp_overlaps(z) == b.xdp_overlaps(z));
        assert(a.tc_overlaps(z) == b.tc_overlaps(z));
    }
}

} // verus!
