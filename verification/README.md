# action_analyzer

Sales analyses for a desktop "analyzer runner": from the rows of sales,
purchase and customer CSV files it computes

- basket rules ("customers who buy A also buy B"): pairs of items bought in the
  same transaction in at least two transactions, the ten rules of highest
  confidence (`src/basket.rs`);
- ABC ranking of items by sales count with cumulative shares (`src/abc.rs`);
- RFM scores and customer segments (`src/rfm.rs`);
- the earlier and later half of sales by date, per item (`src/trend.rs`);
- unusual purchases, latest first (`src/anomaly.rs`);
- customer clusters by region and age band (`src/cluster.rs`).

`src/` is the verified library; every function there carries a contract that
Verus proves. Shared pieces: text order and stable sorting (`src/order.rs`),
grouping rows by key (`src/grouping.rs`), the item master (`src/master.rs`),
row types (`src/rows.rs`), plugins (`src/plugin.rs`) and sample files
(`src/samples.rs`).

`app/` reads the files, runs plugin processes and computes the
floating-point figures (confidence, lift, percentages, averages, growth
rates) around the library's results.
