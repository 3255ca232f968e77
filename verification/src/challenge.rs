use crate::assets::{asset_url, content_key, hash_bytes, url_of};
use crate::render::{link_map_of, md_html_of, render_markdown};
use crate::util::{clone_bytes, clone_strings};
use vstd::prelude::*;

verus! {

/// One attachment of a challenge: the filename the organizer declared and
/// the file's bytes as read from the repository.
pub struct AssetFile {
    pub name: String,
    pub bytes: Vec<u8>,
}

/// A challenge definition as the organizer wrote it: markdown description,
/// attachment bytes, secret flag, and the organizer's own on/off switch.
pub struct ChallengeDef {
    pub slug: String,
    pub title: String,
    pub author: String,
    pub description: String,
    pub tags: Vec<String>,
    pub files: Vec<AssetFile>,
    pub flag: String,
    pub enabled: bool,
}

/// One file the asset store is asked to hold: a copy of the bytes placed
/// under `<hash>/<name>`.
pub struct StoredAsset {
    pub hash: String,
    pub name: String,
    pub bytes: Vec<u8>,
}

/// A challenge ready for the store: the description rendered to HTML with
/// attachment links rewritten to their public URLs.
pub struct Challenge {
    pub slug: String,
    pub title: String,
    pub author: String,
    pub description: String,
    pub tags: Vec<String>,
    pub files: Vec<String>,
    pub flag: String,
    pub enabled: bool,
}

/// The fields of a prepared challenge as mathematical values.
#[verifier::ext_equal]
pub ghost struct ChallengeView {
    pub slug: Seq<char>,
    pub title: Seq<char>,
    pub author: Seq<char>,
    pub description: Seq<char>,
    pub tags: Seq<Seq<char>>,
    pub files: Seq<Seq<char>>,
    pub flag: Seq<char>,
    pub enabled: bool,
}

impl View for Challenge {
    type V = ChallengeView;

    open spec fn view(&self) -> ChallengeView {
        ChallengeView {
            slug: self.slug@,
            title: self.title@,
            author: self.author@,
            description: self.description@,
            tags: self.tags@.map_values(|s: String| s@),
            files: self.files@.map_values(|s: String| s@),
            flag: self.flag@,
            enabled: self.enabled,
        }
    }
}

/// The filename-to-URL substitutions a challenge's attachments give rise
/// to: each declared filename maps to the URL its content key yields.
pub open spec fn asset_links(files: Seq<AssetFile>) -> Map<Seq<char>, Seq<char>>
    decreases files.len(),
{
    if files.len() == 0 {
        Map::empty()
    } else {
        asset_links(files.drop_last()).insert(
            files.last().name@,
            url_of(content_key(files.last().bytes@), files.last().name@),
        )
    }
}

/// The content keys of a challenge's attachments, in declaration order.
pub open spec fn file_keys(files: Seq<AssetFile>) -> Seq<Seq<char>> {
    files.map_values(|f: AssetFile| content_key(f.bytes@))
}

/// One planned asset copy, as mathematical values.
#[verifier::ext_equal]
pub ghost struct AssetPlanView {
    pub hash: Seq<char>,
    pub name: Seq<char>,
    pub bytes: Seq<u8>,
}

impl View for StoredAsset {
    type V = AssetPlanView;

    open spec fn view(&self) -> AssetPlanView {
        AssetPlanView { hash: self.hash@, name: self.name@, bytes: self.bytes@ }
    }
}

/// The asset copies one challenge definition asks for.
pub open spec fn def_assets(files: Seq<AssetFile>) -> Seq<AssetPlanView> {
    files.map_values(
        |f: AssetFile| AssetPlanView { hash: content_key(f.bytes@), name: f.name@, bytes: f.bytes@ },
    )
}

impl Challenge {
    /// Prepare one organizer-written definition for the store: hash every
    /// attachment, plan its copy into the asset store, and render the
    /// description with attachment links rewritten to the asset URLs.
    pub fn new(def: &ChallengeDef) -> (r: (Challenge, Vec<StoredAsset>))
        ensures
            r.0.slug@ == def.slug@,
            r.0.title@ == def.title@,
            r.0.author@ == def.author@,
            r.0.tags@ == def.tags@,
            r.0.flag@ == def.flag@,
            r.0.enabled == def.enabled,
            r.0.description@ == md_html_of(def.description@, asset_links(def.files@)),
            r.0.files@.len() == def.files@.len(),
            forall|i: int|
                0 <= i < def.files@.len() ==> r.0.files@[i]@ == def.files@[i].name@,
            r.1@.len() == def.files@.len(),
            forall|i: int|
                0 <= i < def.files@.len() ==> {
                    &&& (#[trigger] r.1@[i]).hash@ == content_key(def.files@[i].bytes@)
                    &&& r.1@[i].name@ == def.files@[i].name@
                    &&& r.1@[i].bytes@ == def.files@[i].bytes@
                },
    {
        let mut links: Vec<(String, String)> = Vec::new();
        let mut stored: Vec<StoredAsset> = Vec::new();
        let mut names: Vec<String> = Vec::new();
        let mut i: usize = 0;
        while i < def.files.len()
            invariant
                0 <= i <= def.files@.len(),
                link_map_of(links@) == asset_links(def.files@.take(i as int)),
                stored@.len() == i,
                forall|j: int|
                    0 <= j < i ==> {
                        &&& (#[trigger] stored@[j]).hash@ == content_key(def.files@[j].bytes@)
                        &&& stored@[j].name@ == def.files@[j].name@
                        &&& stored@[j].bytes@ == def.files@[j].bytes@
                    },
                names@.len() == i,
                forall|j: int| 0 <= j < i ==> names@[j]@ == def.files@[j].name@,
            decreases def.files@.len() - i,
        {
            let f = &def.files[i];
            let hash = hash_bytes(&f.bytes);
            let name = f.name.clone();
            let url = asset_url(&hash, &name);
            let ghost links_before = links@;
            links.push((name.clone(), url));
            stored.push(StoredAsset { hash, name: name.clone(), bytes: clone_bytes(&f.bytes) });
            names.push(name);
            proof {
                assert(links@.drop_last() =~= links_before);
                let cut = def.files@.take(i + 1);
                assert(cut.drop_last() =~= def.files@.take(i as int));
                assert(cut.last() == def.files@[i as int]);
            }
            i += 1;
        }
        proof {
            assert(def.files@.take(def.files@.len() as int) =~= def.files@);
        }
        let description = render_markdown(&def.description, &links);
        let challenge = Challenge {
            slug: def.slug.clone(),
            title: def.title.clone(),
            author: def.author.clone(),
            description,
            tags: clone_strings(&def.tags),
            files: names,
            flag: def.flag.clone(),
            enabled: def.enabled,
        };
        (challenge, stored)
    }
}

} // verus!
