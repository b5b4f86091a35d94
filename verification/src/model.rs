//! The data of the player: video sources, search results, episodes, and the
//! history and skip settings that it keeps.
use vstd::prelude::*;
use crate::live::opt_view;
use crate::order::{Named, SortName};

verus! {

broadcast use vstd::string::group_string_axioms;

/// One entry of the video source configuration file.
#[derive(Debug, Clone)]
pub struct SourceEntry {
    pub api: String,
    pub name: String,
    pub detail: Option<String>,
    pub enabled: Option<bool>,
}

pub struct SourceEntryV {
    pub api: Seq<char>,
    pub name: Seq<char>,
    pub detail: Option<Seq<char>>,
    pub enabled: Option<bool>,
}

impl View for SourceEntry {
    type V = SourceEntryV;

    open spec fn view(&self) -> SourceEntryV {
        SourceEntryV { api: self.api@, name: self.name@, detail: opt_view(self.detail), enabled: self.enabled }
    }
}

/// The video source configuration file: its entries in the order of their
/// keys, which strictly increase (`keys_increasing`), as a map's do.
#[derive(Debug, Clone)]
pub struct SourceConfigFile {
    pub cache_time: u64,
    pub api_site: Vec<(String, SourceEntry)>,
}

/// How long source listings may be cached when the file does not say.
pub fn default_cache_time() -> (r: u64)
    ensures
        r == 7200,
{
    7200
}

#[derive(Debug, Clone)]
pub struct Source {
    pub key: String,
    pub name: String,
    pub api: String,
    pub detail: Option<String>,
    pub enabled: bool,
}

pub struct SourceV {
    pub key: Seq<char>,
    pub name: Seq<char>,
    pub api: Seq<char>,
    pub detail: Option<Seq<char>>,
    pub enabled: bool,
}

impl View for Source {
    type V = SourceV;

    open spec fn view(&self) -> SourceV {
        SourceV {
            key: self.key@,
            name: self.name@,
            api: self.api@,
            detail: opt_view(self.detail),
            enabled: self.enabled,
        }
    }
}

impl SortName for Source {
    open spec fn sort_name(&self) -> Seq<char> {
        self.name@
    }

    open spec fn sort_key(&self) -> Seq<char> {
        self.key@
    }
}

impl Named for Source {
    fn name_str(&self) -> (r: &str) {
        self.name.as_str()
    }
}

impl SortName for SourceV {
    open spec fn sort_name(&self) -> Seq<char> {
        self.name
    }

    open spec fn sort_key(&self) -> Seq<char> {
        self.key
    }
}

pub open spec fn source_views(s: Seq<Source>) -> Seq<SourceV> {
    s.map_values(|x: Source| x@)
}

#[derive(Debug, Clone, Default)]
pub struct Episode {
    pub title: String,
    pub url: String,
}

pub struct EpisodeV {
    pub title: Seq<char>,
    pub url: Seq<char>,
}

impl View for Episode {
    type V = EpisodeV;

    open spec fn view(&self) -> EpisodeV {
        EpisodeV { title: self.title@, url: self.url@ }
    }
}

pub open spec fn episode_views(s: Seq<Episode>) -> Seq<EpisodeV> {
    s.map_values(|x: Episode| x@)
}

#[derive(Debug, Clone, Default)]
pub struct SearchResult {
    pub id: String,
    pub source: String,
    pub source_name: String,
    pub title: String,
    pub poster: String,
    pub category: String,
    pub year: String,
    pub actor: String,
    pub director: String,
    pub area: String,
    pub language: String,
    pub genre: String,
    pub description: String,
    pub remarks: String,
    pub episodes: Vec<Episode>,
}

pub struct SearchResultV {
    pub id: Seq<char>,
    pub source: Seq<char>,
    pub source_name: Seq<char>,
    pub title: Seq<char>,
    pub poster: Seq<char>,
    pub category: Seq<char>,
    pub year: Seq<char>,
    pub actor: Seq<char>,
    pub director: Seq<char>,
    pub area: Seq<char>,
    pub language: Seq<char>,
    pub genre: Seq<char>,
    pub description: Seq<char>,
    pub remarks: Seq<char>,
    pub episodes: Seq<EpisodeV>,
}

impl View for SearchResult {
    type V = SearchResultV;

    open spec fn view(&self) -> SearchResultV {
        SearchResultV {
            id: self.id@,
            source: self.source@,
            source_name: self.source_name@,
            title: self.title@,
            poster: self.poster@,
            category: self.category@,
            year: self.year@,
            actor: self.actor@,
            director: self.director@,
            area: self.area@,
            language: self.language@,
            genre: self.genre@,
            description: self.description@,
            remarks: self.remarks@,
            episodes: episode_views(self.episodes@),
        }
    }
}

pub open spec fn result_views(s: Seq<SearchResult>) -> Seq<SearchResultV> {
    s.map_values(|x: SearchResult| x@)
}

#[derive(Debug, Clone, Default)]
pub struct Category {
    pub id: String,
    pub parent_id: String,
    pub name: String,
}

pub struct CategoryV {
    pub id: Seq<char>,
    pub parent_id: Seq<char>,
    pub name: Seq<char>,
}

impl View for Category {
    type V = CategoryV;

    open spec fn view(&self) -> CategoryV {
        CategoryV { id: self.id@, parent_id: self.parent_id@, name: self.name@ }
    }
}

pub open spec fn category_views(s: Seq<Category>) -> Seq<CategoryV> {
    s.map_values(|x: Category| x@)
}

#[derive(Debug, Clone, Default)]
pub struct LibraryPage {
    pub items: Vec<SearchResult>,
    pub page: u32,
    pub page_count: u32,
    pub total: u32,
}

#[derive(Debug, Clone, Default)]
pub struct SkipConfig {
    pub source: String,
    pub video_id: String,
    pub intro_end_sec: i64,
    pub outro_offset_sec: i64,
    pub enabled: bool,
    pub updated_at: i64,
}

#[derive(Debug, Clone, Default)]
pub struct PlayHistory {
    pub source: String,
    pub video_id: String,
    pub episode_index: i64,
    pub progress_sec: i64,
    pub duration_sec: i64,
    pub title: String,
    pub episode_title: String,
    pub poster: String,
    pub updated_at: i64,
}

pub struct PlayHistoryV {
    pub source: Seq<char>,
    pub video_id: Seq<char>,
    pub episode_index: i64,
    pub progress_sec: i64,
    pub duration_sec: i64,
    pub title: Seq<char>,
    pub episode_title: Seq<char>,
    pub poster: Seq<char>,
    pub updated_at: i64,
}

impl View for PlayHistory {
    type V = PlayHistoryV;

    open spec fn view(&self) -> PlayHistoryV {
        PlayHistoryV {
            source: self.source@,
            video_id: self.video_id@,
            episode_index: self.episode_index,
            progress_sec: self.progress_sec,
            duration_sec: self.duration_sec,
            title: self.title@,
            episode_title: self.episode_title@,
            poster: self.poster@,
            updated_at: self.updated_at,
        }
    }
}

} // verus!
