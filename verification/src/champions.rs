//! Champion and map definitions, as the asset files describe them.

use vstd::prelude::*;

verus! {

/// The id of a champion; champions are found by it in the champion list.
#[derive(Debug)]
pub struct ChampionId(pub String);

impl Clone for ChampionId {
    fn clone(&self) -> (r: Self)
        ensures
            r == *self,
    {
        ChampionId(self.0.clone())
    }
}

/// A champion: its id, display name and the path of its icon.
#[derive(Debug)]
pub struct ChampionDef {
    pub id: ChampionId,
    pub name: String,
    pub icon: String,
}

impl ChampionDef {
    /// The example champion that the asset tooling writes out.
    pub fn example() -> (r: Self)
        ensures
            r.id.0@ == "example_champion"@,
            r.name@ == "Example Champion"@,
            r.icon@ == "champs/unknown.png"@,
    {
        ChampionDef {
            id: ChampionId(String::from_str("example_champion")),
            name: String::from_str("Example Champion"),
            icon: String::from_str("champs/unknown.png"),
        }
    }
}

/// The ids of the champions that the game offers.
#[derive(Debug)]
pub struct ChampList(pub Vec<String>);

impl ChampList {
    /// The example list that the asset tooling writes out: the one champion `champ1`.
    pub fn example() -> (r: Self)
        ensures
            r.0@.len() == 1,
            r.0@[0]@ == "champ1"@,
    {
        let mut v: Vec<String> = Vec::new();
        v.push(String::from_str("champ1"));
        ChampList(v)
    }
}

/// The id of a map.
#[derive(Debug)]
pub struct MapId(pub String);

impl Clone for MapId {
    fn clone(&self) -> (r: Self)
        ensures
            r == *self,
    {
        MapId(self.0.clone())
    }
}

/// A map: its id, display name and the path of its script.
#[derive(Debug)]
pub struct MapDef {
    pub id: MapId,
    pub name: String,
    pub script: String,
}

impl ChampionId {
    /// The asset path of the champion's definition: `champs/<id>/def.ron`.
    pub fn def_path(&self) -> (r: String)
        ensures
            r@ == "champs/"@ + self.0@ + "/def.ron"@,
    {
        let mut r = String::from_str("champs/");
        r.append(self.0.as_str());
        r.append("/def.ron");
        r
    }
}

impl MapId {
    /// The asset path of the map's definition: `maps/<id>/def.ron`.
    pub fn def_path(&self) -> (r: String)
        ensures
            r@ == "maps/"@ + self.0@ + "/def.ron"@,
    {
        let mut r = String::from_str("maps/");
        r.append(self.0.as_str());
        r.append("/def.ron");
        r
    }
}

} // verus!
