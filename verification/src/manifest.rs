//! The project manifest `.hoshi2star.json` kept at a game's root: what it
//! holds and how it is refreshed. Reading and writing the file is left to
//! the caller.
use vstd::prelude::*;

verus! {

#[derive(Debug, Clone, Copy, PartialEq, Eq, Structural)]
pub struct ManifestStats {
    pub file_count: u32,
    pub segment_count: u32,
    pub translated_count: u32,
    pub glossary_term_count: u32,
}

#[derive(Debug, Clone)]
pub struct ManifestData {
    pub project_id: String,
    pub game_title: String,
    pub engine: String,
    pub game_path: String,
    pub hoshi2star_version: String,
    pub created_at: String,
    pub last_opened_at: String,
    pub stats: ManifestStats,
}

pub open spec fn version_text() -> Seq<char> {
    "0.4.2"@
}

/// The version of this library written into manifests.
pub fn hoshi2star_version() -> (v: &'static str)
    ensures
        v@ == version_text(),
{
    "0.4.2"
}

impl ManifestData {
    /// A manifest created and last opened at `now` (an ISO-8601 time the
    /// caller reads from the clock).
    pub fn new(
        project_id: String,
        game_title: String,
        engine: String,
        game_path: String,
        stats: ManifestStats,
        now: String,
    ) -> (m: Self)
        ensures
            m.project_id@ == project_id@,
            m.game_title@ == game_title@,
            m.engine@ == engine@,
            m.game_path@ == game_path@,
            m.hoshi2star_version@ == version_text(),
            m.created_at@ == now@,
            m.last_opened_at@ == now@,
            m.stats == stats,
    {
        let created_at = now.clone();
        ManifestData {
            project_id,
            game_title,
            engine,
            game_path,
            hoshi2star_version: String::from_str(hoshi2star_version()),
            created_at,
            last_opened_at: now,
            stats,
        }
    }
}

/// Refreshes the statistics of a manifest that was read back, and stamps
/// it as opened at `now`; everything else stays.
pub fn update_stats(data: &mut ManifestData, stats: ManifestStats, now: String)
    ensures
        final(data).stats == stats,
        final(data).last_opened_at@ == now@,
        final(data).project_id == old(data).project_id,
        final(data).game_title == old(data).game_title,
        final(data).engine == old(data).engine,
        final(data).game_path == old(data).game_path,
        final(data).hoshi2star_version == old(data).hoshi2star_version,
        final(data).created_at == old(data).created_at,
{
    data.stats = stats;
    data.last_opened_at = now;
}

} // verus!
