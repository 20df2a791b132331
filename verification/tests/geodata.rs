use bezirke::geodata_path;

#[test]
fn geodata_path_inside_nix() {
    assert_eq!(geodata_path(true, "/ignored"), "./geodata/build/bezirke-12.geodata");
}

#[test]
fn geodata_path_from_setting() {
    assert_eq!(geodata_path(false, "/srv/geo"), "/srv/geo/build/bezirke-12.geodata");
    assert_eq!(geodata_path(false, ""), "/build/bezirke-12.geodata");
}
