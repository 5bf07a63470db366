use qlion::cell::{build_index, get_num, get_string, Cell};
use qlion::decode::{decode_orders, DecodeError};
use qlion::opr::{process, total_quantity};

#[test]
fn test_build_index() {
    let header = vec![
        Cell::Empty,
        Cell::Str(String::from("hello")),
        Cell::Str(String::from("world")),
    ];

    let title_index = build_index(&header);
    assert_eq!(title_index.len(), 2);
    assert_eq!(title_index.get("hello").unwrap(), 1);
    assert_eq!(title_index.get("world").unwrap(), 2);
    assert!(title_index.get("absent").is_none());
}

#[test]
fn test_build_index_last_title_wins() {
    let header = vec![
        Cell::Str(String::from("hello")),
        Cell::Str(String::from("hello")),
    ];
    let title_index = build_index(&header);
    assert_eq!(title_index.get("hello").unwrap(), 1);
}

#[test]
fn test_cell_getters() {
    let header = vec![Cell::Str(String::from("a")), Cell::Str(String::from("b"))];
    let index = build_index(&header);
    let row = vec![Cell::Str(String::from("text")), Cell::Num(250)];
    assert_eq!(get_string(&row, &index, "a").unwrap(), "text");
    assert!(get_string(&row, &index, "b").is_none());
    assert_eq!(get_num(&row, &index, "b").unwrap(), 250);
    assert!(get_num(&row, &index, "a").is_none());
    assert!(get_string(&row, &index, "c").is_none());
}

fn header_row() -> Vec<Cell> {
    vec![
        Cell::Str(String::from("订单编号")),
        Cell::Str(String::from("收货人姓名")),
        Cell::Str(String::from("收货地址")),
        Cell::Str(String::from("订单状态")),
        Cell::Str(String::from("联系手机")),
        Cell::Str(String::from("联系电话")),
        Cell::Str(String::from("货品标题")),
        Cell::Str(String::from("数量")),
        Cell::Str(String::from("单价(元)")),
        Cell::Str(String::from("实付款(元)")),
        Cell::Str(String::from("买家留言")),
    ]
}

fn item_row(id: Option<&str>, title: &str, count: i64, price_cents: i64) -> Vec<Cell> {
    vec![
        match id {
            Some(v) => Cell::Str(String::from(v)),
            None => Cell::Empty,
        },
        Cell::Str(String::from("xiaoming")),
        Cell::Str(String::from("beijing")),
        Cell::Str(String::from("sent")),
        Cell::Str(String::from("123456")),
        Cell::Str(String::from("654321")),
        Cell::Str(String::from(title)),
        Cell::Num(count * 100),
        Cell::Num(price_cents),
        Cell::Num(9999),
        Cell::Empty,
    ]
}

#[test]
fn test_decode_orders_missing_header() {
    let rows: Vec<Vec<Cell>> = Vec::new();
    match decode_orders(&rows) {
        Err(e) => assert_eq!(e, DecodeError::MissingHeader),
        Ok(_) => panic!("decoding an empty sheet must fail"),
    }
}

#[test]
fn test_decode_orders_carry_forward() {
    let rows = vec![
        header_row(),
        item_row(Some("order-1"), "AJ001 red", 2, 1050),
        // blank id: this row belongs to order-1's group
        item_row(None, "AJ003 blue", 3, 200),
        item_row(Some("order-2"), "AJ002 green", 1, 500),
    ];
    let orders = decode_orders(&rows).unwrap();
    assert_eq!(orders.len(), 3);

    assert_eq!(orders[0].id, "order-1");
    assert_eq!(orders[0].group, 1);
    assert_eq!(orders[0].item_name, "AJ001 red * 2");
    assert_eq!(orders[0].total_count, 2);
    assert_eq!(orders[0].price, 1050);
    assert_eq!(orders[0].total_price, 2100);
    assert_eq!(orders[0].pay_amount, 9999);
    assert_eq!(orders[0].phone, "123456");

    // the carried-forward row keeps order-1's id, group and phones
    assert_eq!(orders[1].id, "order-1");
    assert_eq!(orders[1].group, 1);
    assert_eq!(orders[1].phone, "123456");
    assert_eq!(orders[1].telephone, "654321");
    assert_eq!(orders[1].item_name, "AJ003 blue * 3");
    assert_eq!(orders[1].total_price, 600);

    assert_eq!(orders[2].id, "order-2");
    assert_eq!(orders[2].group, 3);
}

#[test]
fn test_decode_orders_fallbacks() {
    // a header that maps no known money or contact columns
    let rows = vec![
        vec![
            Cell::Str(String::from("订单编号")),
            Cell::Str(String::from("货品标题")),
        ],
        vec![Cell::Str(String::from("order-1")), Cell::Str(String::from("AJ001 red"))],
    ];
    let orders = decode_orders(&rows).unwrap();
    assert_eq!(orders.len(), 1);
    // quantity and price default to zero; the consignee falls back to the
    // sentinel record
    assert_eq!(orders[0].total_count, 0);
    assert_eq!(orders[0].price, 0);
    assert_eq!(orders[0].total_price, 0);
    assert_eq!(orders[0].item_name, "AJ001 red * 0");
    assert_eq!(orders[0].consignee, "unknow");
    assert_eq!(orders[0].phone, "");
}

#[test]
fn test_process_pipeline() {
    let rows = vec![
        header_row(),
        item_row(Some("order-1"), "AJ001 red", 2, 1050),
        item_row(None, "AJ009 blue", 3, 200),
        item_row(Some("order-2"), "AJ001 red", 1, 1050),
        // an exact re-export of order-1: dropped by the deduplicator
        item_row(Some("order-1"), "AJ001 red", 2, 1050),
    ];
    let orders = decode_orders(&rows).unwrap();
    let orders = process(orders, &String::from("aj001"));

    // order-1 loses its AJ009 row (split), then merges with order-2, which
    // shares consignee, address, status and phone
    assert_eq!(orders.len(), 1);
    assert_eq!(orders[0].id, "order-1");
    assert!(orders[0].splited);
    assert_eq!(orders[0].merged, vec![String::from("order-2")]);
    assert_eq!(orders[0].total_count, 3);
    assert_eq!(orders[0].total_price, 3150);
    assert!(!orders[0].has_same_phone_order);
    assert_eq!(total_quantity(&orders), 3);

    let row = orders[0].as_excel_row();
    assert_eq!(row[1], "已合已拆");
    assert_eq!(row[2], "31.50");
}
