use gashapon::utils::randomize;
use gashapon::utils::rng;
use gashapon::Gashapon;
use gashapon::GashaponItem;
use gashapon::PrizeItem;
use gashapon::Prizes;

#[test]
fn test_rng() {
    let mut seed: usize = 12345;
    let random_number = rng(&mut seed);
    assert_eq!(random_number, 21468);
}

#[test]
fn test_randomize() {
    let mut seed: usize = 12345;
    let data = vec![1, 2, 3, 4, 5];
    let randomized_data = randomize(data.clone(), &mut seed);
    assert_ne!(randomized_data, data);
    assert_eq!(randomized_data.len(), data.len());
}

#[test]
fn test_prizes() {
    let mut prizes = Prizes::new();
    prizes.with_items(&vec![
        GashaponItem::new(PrizeItem::new("Item1")).with_quantity(2),
        GashaponItem::new(PrizeItem::new("Item2")).with_quantity(3),
    ]);
    prizes.with_seed(12345);
    prizes.build();

    let drawn_item = prizes.draw().unwrap();
    assert!(drawn_item.name == "Item1" || drawn_item.name == "Item2");
}

#[test]
fn test_gashapon() {
    let mut gashapon = Gashapon::default();
    gashapon.add_item(GashaponItem::new(PrizeItem::new("Item1")).with_quantity(2));
    gashapon.add_item(GashaponItem::new(PrizeItem::new("Item2")).with_quantity(3));
    gashapon.with_seed(12345);
    gashapon.build();

    let drawn_item = gashapon.draw().unwrap();
    assert!(drawn_item.name == "Item1" || drawn_item.name == "Item2");
}

#[test]
fn test_gashapon_calculate_draw_rate() {
    let mut gashapon = Gashapon::default();
    gashapon.add_items(vec![
        GashaponItem::new(PrizeItem::new("Item1")).with_quantity(2),
        GashaponItem::new(PrizeItem::new("Item2")).with_quantity(3),
        GashaponItem::new(PrizeItem::new("Item3")).with_quantity(5),
    ]);
    gashapon.with_seed(12345);
    gashapon.build();

    let draw_rate = gashapon.calculate_draw_rate();
    assert_eq!(draw_rate.len(), 3);
    assert!(draw_rate
        .iter()
        .any(|r| r.item.prize.name == "Item1"
            && (r.numerator as f64) / (r.denominator as f64) > 0.0));
}

#[test]
fn test_gashapon_restore_items() {
    let mut gashapon = Gashapon::default();
    gashapon.add_items(vec![
        GashaponItem::new(PrizeItem::new("Item1")).with_quantity(1),
        GashaponItem::new(PrizeItem::new("Item2")).with_quantity(1),
    ]);
    gashapon.with_seed(12345);
    gashapon.build();

    let drawn_item = gashapon.draw().unwrap();
    assert!(drawn_item.name == "Item1" || drawn_item.name == "Item2");

    gashapon.restore_items();
    let draw_rate = gashapon.calculate_draw_rate();
    assert!(draw_rate
        .iter()
        .any(|r| r.item.quantity > 0 && (r.numerator as f64) / (r.denominator as f64) > 0.0));
}
